[package]
name = "wormhole_cli"
version = "0.1.0"
edition = "2021"
publish = false

[dependencies]
aes-gcm = "=0.10.3"
anyhow = "1"
async-stream = "0.3"
base64 = "=0.22.1"
bendy = "0.6"
clap = { version = "4", features = ["derive"] }
futures = "0.3"
indicatif = "0.17"
rand = "=0.8.8"
reqwest = { version = "0.12", default-features = false, features = ["json", "stream", "rustls-tls"] }
ring = "=0.17.14"
serde = { version = "1", features = ["derive"] }
serde_json = "1"
sha1 = "=0.10.7"
tokio = { version = "1", features = ["full"] }
