[package]
name = "ongaku"
version = "0.1.0"
edition = "2021"
publish = false

[dependencies]
clap = { version = "4", features = ["derive"] }
console = "*"
env_logger = "*"
indicatif = "*"
log = "*"
prost = "*"
serde = { version = "1", features = ["derive"] }
serde_json = "1"
thiserror = "*"
threadpool = "1"
