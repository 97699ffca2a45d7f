[package]
name = "nailpolish"
version = "0.1.0"
edition = "2021"
publish = false

[dependencies]
spoa = "*"
rayon = "*"
clap = { version = "*", features = ["derive"] }
anyhow = "*"
