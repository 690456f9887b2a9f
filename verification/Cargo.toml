[package]
name = "lxmf_core"
version = "0.1.0"
edition = "2021"
publish = false

[dependencies]
base64 = "0.22"
hex = "0.4"
rand = "0.8"
rmp-serde = "1"
rmpv = "1"
rns-crypto = "0.2"
rusqlite = { version = "0.37", features = ["bundled"] }
serde = { version = "1", features = ["derive"] }
thiserror = "2"
tokio = { version = "1", features = ["rt-multi-thread", "sync", "time"] }
tracing = "0.1"

[dev-dependencies]
tempfile = "3"
