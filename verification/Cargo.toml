[package]
name = "ys_differential_evolution"
version = "0.1.0"
edition = "2021"
publish = false

[dependencies]
itertools = "0.10"
num = "0.4"
rand = "0.8"
serde = { version = "1", features = ["derive"] }
serde_json = "1"
ys_simple_db = "*"
