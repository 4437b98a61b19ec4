[package]
name = "aqd_solana_contracts"
version = "0.1.0"
edition = "2021"
publish = false

[dependencies]
serde_json = "=1.0.151"
sha2 = "=0.10.9"
solana-sdk = "=1.18.26"
solana-cli-config = "=1.18.26"
serde = "=1.0.229"
clap = { version = "=4.5.61", features = ["derive"] }
anyhow = "=1.0.104"
colored = "=2.2.0"
toml = "=0.8.23"
base64 = "=0.22.1"
