[package]
name = "cache_db"
version = "0.1.0"
edition = "2021"
publish = false

[dependencies]
twox-hash = { version = "*", default-features = false, features = ["xxhash64"] }
