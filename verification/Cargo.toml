[package]
name = "thermite_core"
version = "0.1.0"
edition = "2021"
publish = false

[dependencies]
rand = { version = "=0.8.8", features = ["small_rng"] }
ndarray = { version = "=0.17.2", features = ["rayon", "serde"] }
rayon = "=1.12.0"
serde = { version = "=1.0.229", features = ["derive"] }
sprs = "=0.11.6"
