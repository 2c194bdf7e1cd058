[package]
name = "hallmark_affinity"
version = "0.1.0"
edition = "2021"
publish = false

[dependencies]
histogram = "*"
serde = { version = "*", features = ["derive"] }
serde_json = "*"
indicatif = "*"
