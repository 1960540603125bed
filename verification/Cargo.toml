[package]
name = "launcher_core"
version = "0.1.0"
edition = "2021"
publish = false

[dependencies]
fuzzy-matcher = "*"
clap = { version = "*", features = ["derive"] }
crossterm = "*"
ratatui = "*"
