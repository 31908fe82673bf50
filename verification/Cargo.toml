[package]
name = "simdxml"
version = "0.1.0"
edition = "2021"
publish = false

[dependencies]
memchr = "2"
memmap2 = "0.9"
thiserror = "1"
xxhash-rust = { version = "0.8", features = ["xxh3"] }
