[package]
name = "icm_engines"
version = "0.1.0"
edition = "2021"
publish = false

[dependencies]
clap = { version = "4", features = ["derive"] }
rand = { version = "0.8", features = ["small_rng"] }
rayon = "1"
