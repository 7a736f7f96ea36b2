[package]
name = "distkit"
version = "0.1.0"
edition = "2021"
publish = false

[dependencies]
async-trait = "*"
log = "*"
maelstrom-node = "*"
serde = { version = "*", features = ["derive"] }
tokio = { version = "*", features = ["full"] }
tokio-context = "*"
