[package]
name = "allways"
version = "0.1.0"
edition = "2021"
publish = false

[dependencies]
rustpython-parser = "*"
anyhow = "*"
clap = { version = "*", features = ["derive"] }
