[package]
name = "koji_algorithms"
version = "0.1.0"
edition = "2021"
publish = false

[dependencies]
hashbrown = "*"
rand = { version = "*", features = ["small_rng"] }
serde = { version = "1", features = ["derive"] }
serde_json = "1"
