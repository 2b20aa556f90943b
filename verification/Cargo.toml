[package]
name = "or_challenge"
version = "0.1.0"
edition = "2021"
publish = false

[dependencies]
fastrand = "*"
serde = { version = "*", features = ["derive"] }
serde_json = "*"
chrono = "*"
num_cpus = "*"
