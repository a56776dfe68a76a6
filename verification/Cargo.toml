[package]
name = "bus_mapping"
version = "0.1.0"
edition = "2021"
publish = false

[dependencies]
halo2_proofs = { version = "0.3", default-features = false }
