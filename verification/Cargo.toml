[package]
name = "cosmoburn_tracker"
version = "0.1.0"
edition = "2021"
publish = false

[dependencies]
astroport = "=5.9.0"
cosmwasm-schema = "=1.5.11"
cosmwasm-std = "=1.5.11"
cw-storage-plus = "=1.2.0"
cw2 = "=1.1.2"
schemars = "=0.8.22"
serde = { version = "=1.0.229", default-features = false, features = ["derive"] }
thiserror = "=1.0.69"
