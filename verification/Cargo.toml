[package]
name = "vzdump_browser"
version = "0.1.0"
edition = "2021"
publish = false

[dependencies]
anyhow = "1"
chrono = "0.4"
clap = { version = "4", features = ["derive"] }
crossterm = "0.28"
ext4_rs = "1"
fatfs = "0.3"
hex = "0.4"
ratatui = "0.29"
sha2 = "0.10"
