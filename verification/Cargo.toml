[package]
name = "ime_core"
version = "0.1.0"
edition = "2021"
publish = false

[dependencies]
crc32fast = "*"
regex = "*"
tokio = { version = "*", features = ["rt", "sync", "macros"] }
