[package]
name = "runk"
version = "0.1.0"
edition = "2021"
publish = false

[dependencies]
ansi-to-tui = "7"
anyhow = "1"
clap = { version = "4", features = ["derive"] }
crossterm = "0.28"
dirs = "5"
git2 = { version = "0.19", default-features = false }
ratatui = "0.29"
serde = { version = "1", features = ["derive"] }
serde_json = "1"
signal-hook = "0.3"
similar = "2"
syntect = { version = "5", default-features = false, features = ["default-fancy"] }
tempfile = "3"
toml = "0.8"
unicode-width = "0.2"
