[package]
name = "peer_tracker"
version = "0.1.0"
edition = "2021"
publish = false

[dependencies]
libp2p = { version = "=0.54.1", default-features = false, features = ["tokio", "tcp", "noise", "yamux", "dns", "macros", "ed25519"] }
tokio = { version = "1", features = ["macros", "rt-multi-thread", "time"] }
