[package]
name = "afterlife_core"
version = "0.1.0"
edition = "2021"
publish = false

[dependencies]
eth_checksum = "=0.1.2"
serde = { version = "*", features = ["derive"] }
serde_json = "*"
serde_yaml = "*"
tokio = { version = "*", features = ["full"] }
tokio-postgres = "*"
warp = { version = "=0.4.3", features = ["server"] }
web3 = "*"
futures = "*"
once_cell = "*"
dotenv = "*"
indicatif = "*"
