[package]
name = "learn_game"
version = "0.1.0"
edition = "2021"
publish = false

[dependencies]
ndarray = "*"
rand = "*"
serde = { version = "*", features = ["derive"] }
serde_json = "*"
serde-pickle = "*"
anyhow = "*"
chrono = "*"
itertools = "*"
