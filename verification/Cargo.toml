[package]
name = "hash_db"
version = "0.1.0"
edition = "2021"
publish = false

[dependencies]
bytes = "*"
nix = { version = "*", features = ["uio", "fs"] }
tokio = { version = "*", features = ["full"] }
