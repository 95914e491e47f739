[package]
name = "moo_transport"
version = "0.1.0"
edition = "2021"
publish = false

[dependencies]
bytes = "1"
serde_json = "1"
serde = { version = "1", features = ["derive"] }
thiserror = "1"
tokio = { version = "1", features = ["net", "sync", "rt", "rt-multi-thread", "macros", "time", "io-util"] }
futures = "0.3"
async-trait = "0.1"
tracing = "0.1"
tokio-tungstenite = "0.24"
