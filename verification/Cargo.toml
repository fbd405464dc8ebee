[package]
name = "senime"
version = "0.1.0"
edition = "2021"
publish = false

[dependencies]
ahash = "=0.8.12"
nucleo-matcher = "=0.3.1"
bincode = "=2.0.1"
serde = { version = "=1.0.229", features = ["derive"] }
serde_json = "=1.0.154"
toml = "=0.8.23"
aes = "=0.8.4"
cbc = { version = "=0.1.2", features = ["alloc", "block-padding"] }
base64 = "=0.22.1"
ropey = "=1.6.1"
unicode-width = "0.2"
