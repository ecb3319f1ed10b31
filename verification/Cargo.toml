[package]
name = "crub_graper"
version = "0.2.0"
edition = "2021"
publish = false

[dependencies]
petgraph = "*"
sha2 = "*"
hex = "*"
serde = { version = "1", features = ["derive"] }
serde_json = "1"
toml = "*"
clap = { version = "4", features = ["derive"] }
colored = "*"
futures = "0.3"
indicatif = "*"
tokio = { version = "1", features = ["full"] }
