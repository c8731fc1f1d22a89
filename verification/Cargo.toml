[package]
name = "resource_node"
version = "0.1.0"
edition = "2021"
publish = false

[dependencies]
anyhow = "1"
axum = "*"
bytesize = "2"
chrono = "0.4"
clap = { version = "4", features = ["derive"] }
colored = "*"
crossterm = { version = "*", features = ["event-stream"] }
dashmap = "6"
env_logger = "*"
hex = "0.4"
indicatif = "*"
log = "0.4"
rand = "0.9"
ratatui = "*"
reqwest = { version = "0.12", default-features = false, features = ["json"] }
serde = { version = "1", features = ["derive"] }
serde_json = "1"
sha2 = "0.10"
thousands = "0.2"
tokio = { version = "1", features = ["full"] }
tokio-stream = "0.1"
tui-logger = "*"
