[package]
name = "translate"
version = "0.1.0"
edition = "2021"
publish = false

[dependencies]
anyhow = "1"
clap = { version = "4", features = ["derive"] }
glob = "0.3"
nalgebra = "*"
rust-bert = "*"
serde_json = "1"
tch = "*"
