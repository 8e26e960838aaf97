[package]
name = "leaderless_consensus"
version = "0.1.0"
edition = "2021"
publish = false

[dependencies]
anyhow = "=1.0.104"
async-trait = "=0.1.92"
bincode = "=1.3.3"
bytes = "=1.12.1"
clap = "=2.34.0"
curve25519-dalek = "=5.0.0"
curve25519-dalek-ng = "=4.1.1"
displaydoc = "=0.2.7"
ed25519-dalek = "=1.0.1"
env_logger = "=0.11.11"
futures = "=0.3.34"
log = "=0.4.34"
rand = "=0.7.3"
serde = { version = "=1.0.229", features = ["derive"] }
tokio = { version = "=1.54.1", features = ["full"] }
tokio-util = { version = "=0.7.20", features = ["codec"] }
