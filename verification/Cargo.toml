[package]
name = "polygone_drive"
version = "0.1.0"
edition = "2021"
publish = false

[dependencies]
aes-gcm = "0.10"
anyhow = "1"
base64 = "0.22"
bincode = "1"
blake3 = "1"
clap = { version = "4", features = ["derive"] }
hex = "0.4"
libp2p = { version = "0.53", features = ["tokio", "tcp", "noise", "yamux", "kad", "identify", "request-response", "cbor", "macros", "ed25519"] }
libp2p-swarm = "0.44"
rand = "0.8"
serde = { version = "1", features = ["derive"] }
serde_json = "1"
tokio = { version = "1", features = ["full"] }
tokio-stream = "0.1"
tokio-util = { version = "0.7", features = ["io"] }
tracing-subscriber = { version = "0.3", features = ["env-filter"] }
uuid = { version = "1", features = ["v4"] }
