[package]
name = "rust-snell"
version = "0.1.0"
edition = "2021"
publish = false

[dependencies]
aes-gcm = "0.10"
argon2 = "0.5"
chacha20poly1305 = "0.10"
clap = { version = "4", features = ["derive"] }
env_logger = "0.11"
log = "0.4"
lru = "0.12"
rand = "0.8"
tokio = { version = "1", features = ["full"] }
