[package]
name = "etch"
version = "0.1.0"
edition = "2021"
publish = false

[dependencies]
sha2 = "0.10"
scrypt = { version = "0.11", default-features = false }
postcard = { version = "1", features = ["use-std"] }
serde = { version = "1", features = ["derive"] }
ed25519-dalek = { version = "2", features = ["rand_core"] }
rand = "0.8"
hex = "0.4"
tokio = { version = "1", features = ["full"] }
clap = { version = "4", features = ["derive"] }
tracing = "0.1"
tracing-subscriber = "0.3"
futures = "0.3"
libp2p = { version = "0.53", features = ["tokio", "tcp", "noise", "yamux", "gossipsub", "identify", "ping", "macros"] }
