[package]
name = "charfreq"
version = "0.1.0"
edition = "2021"
publish = false

[dependencies]
regex = "1"
anyhow = "1"
glob = "0.3"
async-std = { version = "1", features = ["attributes"] }
