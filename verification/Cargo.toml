[package]
name = "mediaorganizer"
version = "0.1.0"
edition = "2021"
publish = false

[dependencies]
sha2 = "=0.10.9"
serde = { version = "=1.0.229", features = ["derive"] }
serde_json = "=1.0.154"
dirs = "=5.0.1"
thiserror = "=1.0.69"
anyhow = "=1.0.104"
clap = { version = "=4.6.7", features = ["derive"] }
fast_image_resize = "5"
