[package]
name = "dmtree"
version = "0.1.0"
edition = "2021"
publish = false

[dev-dependencies]
serde_cbor = "=0.11.2"
