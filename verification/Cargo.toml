[package]
name = "neoutils"
version = "0.1.0"
edition = "2021"
publish = false

[dependencies]
clap = { version = "4", features = ["derive"] }
colored = "*"
crossterm = "*"
globset = "*"
ignore = "*"
indicatif = "*"
ratatui = "*"
regex = "*"
serde_json = "*"
