//! The time stamp of generated resource lists.
use time::format_description::well_known::Rfc3339;
use time::OffsetDateTime;
use vstd::prelude::*;

verus! {

#[verifier::external_type_specification]
#[verifier::external_body]
pub struct ExFormat(time::error::Format);

/// The RFC 3339 text of the instant `nanos` nanoseconds after the Unix epoch,
/// in UTC, as the `time` crate writes it; `None` where it refuses the instant.
pub uninterp spec fn rfc3339_text(nanos: i128) -> Option<Seq<char>>;

/// The first instant of the year 10000, in nanoseconds after the Unix epoch.
pub const FOUR_DIGIT_YEARS_END: i128 = 253_402_300_800_000_000_000;

/// Whether `c` can occur in the RFC 3339 text of an instant in UTC.
pub open spec fn is_stamp_char(c: char) -> bool {
    '0' <= c <= '9' || c == '-' || c == ':' || c == '.' || c == 'T' || c == 'Z'
}

/// The length of the longest RFC 3339 text of an instant in UTC.
pub const STAMP_LENGTH: usize = 30;

/// Whether `text` is made of the characters of a time stamp only, so that it
/// stays on one line, and is no longer than one.
pub open spec fn is_stamp(text: Seq<char>) -> bool {
    text.len() <= STAMP_LENGTH && forall|i: int|
        0 <= i < text.len() ==> is_stamp_char(#[trigger] text[i])
}

/// Whether `text` is the RFC 3339 text of some instant.
pub open spec fn is_time(text: Seq<char>) -> bool {
    is_stamp(text) && exists|nanos: i128| #[trigger] rfc3339_text(nanos) == Some(text)
}

/// Whether there is an instant without an RFC 3339 text, as where the clock shows a
/// year beyond 9999.
pub open spec fn some_time_fails() -> bool {
    exists|nanos: i128| #[trigger] rfc3339_text(nanos) is None
}

/// `time::OffsetDateTime::now_utc`, as nanoseconds after the Unix epoch. It
/// reads the system clock, so nothing is stated of the result.
#[verifier::external_body]
fn now_utc() -> i128 {
    OffsetDateTime::now_utc().unix_timestamp_nanos()
}

/// `time::OffsetDateTime::format` with the well-known format `Rfc3339`, on the
/// instant `nanos` in UTC. The text is a function of the instant; it consists of
/// digits and the separators of the format, and has up to nine digits behind the
/// second; and an instant of the years 1970 to 9999 has one.
#[verifier::external_body]
fn format_rfc3339(nanos: i128) -> (r: Result<String, time::error::Format>)
    ensures
        r matches Ok(text) ==> rfc3339_text(nanos) == Some(text@) && is_stamp(text@),
        r is Err ==> rfc3339_text(nanos) is None,
        0 <= nanos < FOUR_DIGIT_YEARS_END ==> r is Ok,
{
    match OffsetDateTime::from_unix_timestamp_nanos(nanos) {
        Ok(instant) => instant.format(&Rfc3339),
        Err(e) => Err(time::error::Format::ComponentRange(Box::new(e))),
    }
}

/// The RFC 3339 text of the instant `nanos` nanoseconds after the Unix epoch.
pub fn stamp_at(nanos: i128) -> (r: Result<String, time::error::Format>)
    ensures
        r matches Ok(text) ==> rfc3339_text(nanos) == Some(text@) && is_stamp(text@),
        r is Err ==> rfc3339_text(nanos) is None,
        0 <= nanos < FOUR_DIGIT_YEARS_END ==> r is Ok,
{
    format_rfc3339(nanos)
}

/// The RFC 3339 text of the current time.
pub fn timestamp() -> (r: Result<String, time::error::Format>)
    ensures
        r matches Ok(text) ==> is_time(text@),
        r is Err ==> some_time_fails(),
{
    let nanos: i128 = now_utc();
    format_rfc3339(nanos)
}

} // verus!
