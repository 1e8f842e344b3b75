[package]
name = "btkit"
version = "0.1.0"
edition = "2021"
publish = false

[dependencies]
rand = "0.8"
sha1 = "0.10"
percent-encoding = "2"
reqwest = { version = "0.12", default-features = false, features = ["blocking"] }
