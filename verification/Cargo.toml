[package]
name = "dumap"
version = "0.1.0"
edition = "2021"
publish = false

[dependencies]
seahash = "*"
anyhow = "*"
clap = { version = "*", features = ["derive"] }
crossterm = "*"
humansize = "*"
ratatui = "*"
showfile = "*"
url = "*"
