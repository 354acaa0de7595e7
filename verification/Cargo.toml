[package]
name = "minesweeper"
version = "0.1.0"
edition = "2021"
publish = false

[dependencies]
rand = "*"
argh = "*"
crossterm = "*"
serde = { version = "*", features = ["derive"] }
serde_yaml = "*"
