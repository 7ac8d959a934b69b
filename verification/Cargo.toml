[package]
name = "rhabarberbar"
version = "0.1.0"
edition = "2021"
publish = false

[dependencies]
hmac = "0.12"
sha1 = "0.10"
clap = { version = "4", features = ["derive"] }
open = "5"
tempfile = "3"
