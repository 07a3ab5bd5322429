[package]
name = "pinto"
version = "0.1.0"
edition = "2021"
publish = false

[dependencies]
anyhow = "=1.0.104"
base64 = "=0.22.1"
clap = { version = "=4.6.7", features = ["derive"] }
cosmic-text = "=0.19.0"
futures-util = "=0.3.34"
image = { version = "=0.25.10", default-features = false, features = ["png", "jpeg", "gif"] }
krilla = "=0.8.2"
kuchikiki = "=0.8.2"
lopdf = { version = "=0.46.0", default-features = false }
percent-encoding = "=2.3.2"
serde = { version = "=1.0.229", features = ["derive"] }
serde_json = "=1.0.154"
tokio = { version = "=1.54.1", features = ["rt-multi-thread", "macros", "process", "io-util", "time", "sync", "net"] }
tokio-tungstenite = "=0.30.0"
