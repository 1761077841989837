[package]
name = "circuitsim_engine"
version = "0.1.0"
edition = "2021"
publish = false

[dependencies]
slotmap = "*"
petgraph = "*"
serde = { version = "*", features = ["derive"] }
serde_json = "*"
strum = { version = "*", features = ["derive"] }
thiserror = "*"
anyhow = "*"
