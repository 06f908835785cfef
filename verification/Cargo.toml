[package]
name = "decondenser"
version = "0.1.0"
edition = "2021"
publish = false

[dependencies]
allman = "*"
anyhow = "*"
clap = { version = "*", features = ["derive"] }
