[package]
name = "alco"
version = "0.1.0"
edition = "2021"
publish = false

[dependencies]
anyhow = "1"
async-std = "1"
clap = "3"
clap_complete = "3"
humantime = "2"
serde = { version = "1", features = ["derive"] }
serde_yaml = "0.8"
shellexpand = "2"
yaml-rust = "0.4"
