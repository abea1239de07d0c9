[package]
name = "help_overlay"
version = "0.1.0"
edition = "2021"
publish = false

[dependencies]
anyhow = "1.0"
crossterm = "0.17"
itertools = "0.9"
tui = { version = "0.9", default-features = false, features = ["crossterm"] }
