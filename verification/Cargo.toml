[package]
name = "hop_relayd"
version = "0.1.0"
edition = "2021"
publish = false

[dependencies]
blake3 = "=1.8.7"
bs58 = "=0.5.1"
libc = "=0.2.191"
tungstenite = { version = "=0.30.0", features = ["rustls-tls-webpki-roots"] }
