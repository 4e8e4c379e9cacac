[package]
name = "runlogger"
version = "0.1.0"
edition = "2021"
publish = false

[dependencies]
anyhow = "*"
chrono = "*"
crossterm = "*"
dirs = "*"
ratatui = "*"
rusqlite = { version = "*", features = ["bundled"] }
