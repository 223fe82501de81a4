[package]
name = "policylens"
version = "0.1.0"
edition = "2021"
publish = false

[dependencies]
anyhow = "1"
hcl-rs = "=0.14.3"
petgraph = "0.6"
serde = { version = "1", features = ["derive"] }
serde_json = "1"
serde_yaml = "0.9"
thiserror = "1"
