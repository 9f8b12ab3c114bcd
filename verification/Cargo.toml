[package]
name = "aizen_ui"
version = "0.1.0"
edition = "2021"
publish = false

[dependencies]
console = "0.15"
crossterm = "0.28"
once_cell = "1"
ratatui = "0.29"
serde = { version = "1", features = ["derive"] }
serde_json = "1"
