//! What holds of the library as a whole.
//!
//! The functions in these modules are proofs. Each states a law over the
//! specification functions that the contracts of the executable functions are
//! written in.
pub mod bytes;
pub mod collecting;
pub mod files;
pub mod options;
pub mod output;
pub mod queue;
pub mod reading;
pub mod references;
pub mod strings;
