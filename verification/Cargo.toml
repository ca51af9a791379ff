[package]
name = "dbe_backend"
version = "0.1.0"
edition = "2021"
publish = false

[dependencies]
petgraph = "=0.8.3"
serde = { version = "=1.0.229", features = ["derive"] }
serde_json = "=1.0.154"
uuid = { version = "=1.29.0", features = ["v4"] }
ordered-float = "=5.5.1"
thiserror = "=2.0.21"
itertools = "=0.15.0"
logos = "=0.16.1"
camino = "=1.2.6"
toml = "*"
