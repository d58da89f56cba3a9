[package]
name = "yeetbox"
version = "0.1.0"
edition = "2021"
publish = false

[dependencies]
redb = "*"
tokio = { version = "*", features = ["rt", "fs", "io-util"] }
ulid = "*"
unicode-normalization = "*"
