[package]
name = "sidecar-core"
version = "0.1.0"
edition = "2021"
publish = false

[dependencies]
anyhow = "1"
crossbeam-channel = "0.5"
serde = { version = "1", features = ["derive"] }
serde_json = "1"
dotenvy = "0.15"
cpal = "0.15"
rubato = "0.16"
reqwest = { version = "0.12", default-features = false, features = ["blocking", "rustls-tls"] }
bzip2 = "0.4"
tar = "0.4"
parakeet-rs = "*"
sherpa-onnx = "*"
