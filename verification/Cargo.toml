[package]
name = "pulsus-read"
version = "0.1.0"
edition = "2021"
publish = false

[dependencies]
xxhash-rust = { version = "0.8", features = ["xxh64"] }
futures = "0.3"
