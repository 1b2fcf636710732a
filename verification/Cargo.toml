[package]
name = "mtree"
version = "0.1.0"
edition = "2021"
publish = false

[dependencies]
solana-program = "=5.1.0"
hex = "=0.4.3"
clap = { version = "4", features = ["derive"] }
eyre = "0.6"
serde_json = "1"
solana-cli-config = "=3.1.14"
solana-sdk = "*"
solana-system-interface = { version = "=3.3.0", features = ["bincode"] }
