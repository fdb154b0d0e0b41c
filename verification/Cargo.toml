[package]
name = "recursor"
version = "0.1.0"
edition = "2021"
publish = false

[dependencies]
lru = { version = "=0.18.5", default-features = false }
rand = "=0.8.8"
hickory-proto = "=0.24.4"
clap = { version = "=4.6.7", features = ["derive"] }
anyhow = "=1.0.104"
