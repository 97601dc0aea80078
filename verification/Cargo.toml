[package]
name = "packmap"
version = "0.1.0"
edition = "2021"
publish = false

[dependencies]
time = { version = "=0.3.55", features = ["formatting"] }
zip = { version = "=2.6.1", default-features = false, features = ["deflate", "time"] }
