[package]
name = "rucimp"
version = "0.1.0"
edition = "2021"
publish = false

[dependencies]
bytes = "=1.12.1"
rand = "=0.8.8"
base64 = "=0.22.1"
serde = { version = "=1.0.229", features = ["derive"] }
serde_json = "=1.0.154"
serde_cbor = "=0.11.2"
chrono = "=0.4.45"
anyhow = "=1.0.104"
thiserror = "=1.0.69"
http = "=1.5.0"
har = "=0.9.0"
tokio = { version = "=1.54.1", features = ["io-util"] }
tokio-tungstenite = { version = "=0.24.0", default-features = false, features = ["handshake"] }
futures = "=0.3.34"
h2 = "0.4"
