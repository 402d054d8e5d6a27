[package]
name = "model_generator"
version = "0.1.0"
edition = "2021"
publish = false

[dependencies]
petgraph = "0.6"
rand = "0.8"
rand_chacha = "0.3"
quick-xml = "0.36"
serde = { version = "1", features = ["derive"] }
serde_json = "1"
toml = "0.8"
thiserror = "1"
anyhow = "1"
clap = { version = "4", features = ["derive"] }
