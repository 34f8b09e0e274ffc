[package]
name = "rustchain"
version = "0.1.0"
edition = "2021"
publish = false

[dependencies]
sha2 = "0.10"
hex = "0.4"
ed25519-dalek = { version = "2", features = ["rand_core"] }
rand = "0.8"
chrono = "0.4"
serde = { version = "1", features = ["derive"] }
serde_json = "1"
axum = "0.8"
tokio = { version = "1", features = ["full"] }
futures = "0.3"
libp2p = { version = "0.56", features = ["gossipsub", "mdns", "tokio", "tcp", "noise", "yamux", "macros", "ed25519"] }
