[package]
name = "caption_core"
version = "0.1.0"
edition = "2021"
publish = false

[dependencies]
base64 = "0.22"
serde = { version = "1", features = ["derive"] }
serde_json = "1"
thiserror = "2"
clap = { version = "4", features = ["derive"] }
eyre = "0.6"
hound = "3.5"
tempfile = "3"
rand = "0.9"
hf-hub = "0.4"
ndarray = "0.17"
ort = "2.0.0-rc.12"
knf-rs = "0.3"
parakeet-rs = "0.3"
whisper-rs = "*"
umap-rs = "*"
