[package]
name = "libp2p-raft"
version = "0.1.0"
edition = "2021"
publish = false

[dependencies]
libp2p = { version = "0.54", default-features = false, features = ["tokio", "tcp", "noise", "yamux", "ed25519"] }
serde = { version = "1", features = ["derive"] }
bincode = "1"
toml = "0.8"
thiserror = "1"
tokio = { version = "1", features = ["macros", "rt-multi-thread", "time"] }
futures = "0.3"
tracing-subscriber = { version = "0.3", features = ["env-filter"] }
