[package]
name = "inferencemesh"
version = "0.1.0"
edition = "2021"
publish = false

[dependencies]
anyhow = "1"
async-trait = "0.1"
capnp = "*"
clap = { version = "4", features = ["derive"] }
futures = "0.3"
libp2p = { version = "0.54", features = ["tokio", "tcp", "quic", "noise", "yamux", "kad", "request-response", "identify", "autonat", "relay", "dcutr", "macros"] }
safetensors = "*"
serde = { version = "1", features = ["derive"] }
serde_json = "1"
tokio = { version = "1", features = ["rt-multi-thread", "macros", "sync", "time"] }
tracing = "0.1"
tracing-subscriber = { version = "0.3", features = ["env-filter"] }
