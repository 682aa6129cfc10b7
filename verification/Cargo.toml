[package]
name = "ppe_core"
version = "0.1.0"
edition = "2021"
publish = false

[dependencies]
async-trait = "=0.1.92"
bytes = "=1.12.1"
chrono = { version = "=0.4.45", features = ["serde"] }
hashbrown = "=0.15.5"
http = "=1.5.0"
serde = { version = "=1.0.229", features = ["derive"] }
serde_json = "=1.0.154"
serde_yaml = "=0.9.34"
thiserror = "=2.0.21"
tokio = { version = "=1.54.1", features = ["rt", "sync", "time"] }
tokio-util = { version = "=0.7.20", features = ["rt"] }
tracing = "=0.1.44"
zeroize = { version = "=1.9.1", features = ["serde"] }
