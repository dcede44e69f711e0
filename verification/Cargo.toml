[package]
name = "arachne"
version = "0.1.0"
edition = "2021"
publish = false

[dependencies]
raft = { version = "0.7", default-features = false, features = ["protobuf-codec"] }
protobuf = "2"
slog = "2"
thiserror = "2"
tokio = { version = "1", features = ["rt", "rt-multi-thread", "sync", "time", "macros"] }
tokio-util = "0.7"
