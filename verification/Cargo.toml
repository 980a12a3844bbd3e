[package]
name = "pcbot_wasm"
version = "0.1.0"
edition = "2021"
publish = false

[dependencies]
anyhow = "1"
hashbrown = "*"
miniz_oxide = "*"
