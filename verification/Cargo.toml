[package]
name = "photon"
version = "0.1.0"
edition = "2021"
publish = false

[dependencies]
bitcoin_hashes = "*"
serde = { version = "*", features = ["derive"] }
serde_json = "*"
clap = "*"
config = "*"
dirs = "*"
reqwest = { version = "*", default-features = false, features = ["blocking", "json"] }
