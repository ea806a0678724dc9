[package]
name = "blockdag"
version = "0.1.0"
edition = "2021"
publish = false

[dependencies]
rand = "0.8"
anyhow = "1"
log = "0.4"
thiserror = "1"
serde = { version = "1", features = ["derive"] }
serde_json = "1"
clap = { version = "3", features = ["derive"] }
tokio = { version = "1", features = ["rt-multi-thread", "macros", "sync", "time", "net"] }
tokio-tungstenite = "0.20"
futures-util = "0.3"
async-trait = "0.1"
async-recursion = "1"
curve25519-dalek = { version = "4", features = ["rand_core"] }
zeroize = { version = "1", features = ["derive"] }
chacha20poly1305 = "0.10"
sled = "0.34"
