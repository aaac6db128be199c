[package]
name = "buttnet"
version = "0.1.0"
edition = "2021"
publish = false

[dependencies]
p2panda-core = "=0.3.1"
serde = { version = "=1.0.229", features = ["derive"] }
serde_json = "=1.0.151"
tokio = { version = "=1.53.2", features = ["sync", "rt", "rt-multi-thread", "macros", "io-std", "io-util"] }
anyhow = "=1.0.104"
