[package]
name = "superfast_rsync"
version = "0.1.0"
edition = "2021"
publish = false

[dependencies]
blake3 = { version = "1", features = ["pure"] }
rayon = "1"

[dev-dependencies]
md4 = "0.10"
