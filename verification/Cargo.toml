[package]
name = "reesync"
version = "0.1.0"
edition = "2021"
publish = false

[dependencies]
anyhow = "1"
crossterm = "0.28"
globset = "0.4"
ratatui = "0.29"
sha2 = "0.10"
walkdir = "2"
