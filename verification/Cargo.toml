[package]
name = "storage_btree"
version = "0.1.0"
edition = "2021"
publish = false

[dependencies]
itertools = "0.8"
parity-scale-codec = { version = "1.3", features = ["derive"] }
