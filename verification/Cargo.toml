[package]
name = "josh"
version = "0.1.0"
edition = "2021"
publish = false

[dependencies]
base64 = "0.13"
rust-crypto = "0.2"
git2 = { version = "*", default-features = false }
tokio = { version = "1", features = ["full"] }
hyper = { version = "0.14", features = ["full"] }
futures = "0.3"
serde_json = "1"
clap = "2"
atomicwrites = "*"
hyper_cgi = "*"
