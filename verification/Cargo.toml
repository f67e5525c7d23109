[package]
name = "canvas_sync"
version = "0.1.0"
edition = "2021"
publish = false

[dependencies]
libp2p = { version = "*", features = ["gossipsub", "mdns", "noise", "tcp", "yamux", "quic", "tokio", "macros"] }
tokio = { version = "*", features = ["rt-multi-thread", "sync", "macros", "time"] }
futures = "*"
