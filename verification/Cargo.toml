[package]
name = "substrate_lite"
version = "0.1.0"
edition = "2021"
publish = false

[dependencies]
arrayvec = "0.5"
blake2-rfc = "0.2"
derive_more = "0.99"
parity-scale-codec = { version = "1.3", features = ["derive"] }
primitive-types = { version = "0.7", features = ["codec"] }
