[package]
name = "demystify"
version = "0.1.0"
edition = "2021"
publish = false

[dependencies]
batsat = "*"
rand = "=0.10.3"
rand_chacha = "=0.10.0"
serde = { version = "=1.0.229", features = ["derive"] }
serde_json = "=1.0.151"
tera = "=1.20.1"
tempfile = "=3.27.0"
which = "=8.0.6"
clap = { version = "=4.6.7", features = ["derive"] }
svg = "=0.18.0"
anyhow = "=1.0.104"
