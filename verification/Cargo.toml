[package]
name = "iroh_bytes"
version = "0.1.0"
edition = "2021"
publish = false

[dependencies]
bao-tree = "=0.9.1"
bytes = "=1.12.1"
serde = { version = "=1.0.229", features = ["derive"] }

[dev-dependencies]
blake3 = "=1.5.5"
