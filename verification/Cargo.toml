[package]
name = "ratslate"
version = "0.1.0"
edition = "2021"
publish = false

[dependencies]
anyhow = "=1.0.104"
crossterm = "=0.29.0"
ratatui = "=0.30.2"
ratatui-dnd = "=0.1.0"
schemars = "=1.2.3"
serde = { version = "=1.0.229", features = ["derive"] }
serde_json = "=1.0.154"
yrs = "=0.27.4"
