[package]
name = "p2p_chat"
version = "0.1.0"
edition = "2021"
publish = false

[dependencies]
libp2p = { version = "*", features = ["tokio", "tcp", "noise", "yamux", "gossipsub", "kad", "identify", "ping", "relay", "dcutr", "autonat", "macros"] }
uuid = { version = "*", features = ["v4"] }
chrono = "*"
tokio = { version = "*", features = ["macros", "rt-multi-thread", "sync", "signal", "time"] }
futures = "*"
serde = { version = "*", features = ["derive"] }
serde_json = "*"
rusqlite = { version = "*", features = ["bundled"] }
log = "*"
env_logger = "*"
dotenvy = "*"
clap = { version = "*", features = ["derive"] }
reqwest = { version = "*", default-features = false }
