[package]
name = "munou"
version = "0.1.8"
edition = "2021"
publish = false

[dependencies]
rustc-hash = "*"
rand_core = "*"
rand_chacha = "*"
serde = { version = "*", features = ["derive"] }
serde_json = "*"
anyhow = "*"
clap = { version = "*", features = ["derive", "env"] }
