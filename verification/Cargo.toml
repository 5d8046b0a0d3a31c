[package]
name = "abd_register"
version = "0.1.0"
edition = "2021"
publish = false

[dependencies]
stateright = "=0.31.0"
serde = { version = "1", features = ["derive"] }
serde_json = "1"
env_logger = "0.9"

[dev-dependencies]
num_cpus = "1"
