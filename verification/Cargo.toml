[package]
name = "merkle_caps"
version = "0.1.0"
edition = "2021"
publish = false

[dependencies]
num = { version = "=0.4.3", default-features = false }
rayon = "1.10"
serde = { version = "=1.0.229", features = ["derive"] }
once_cell = "=1.21.4"

[dev-dependencies]
anyhow = "=1.0.104"
keccak-hash = "=0.8.0"
