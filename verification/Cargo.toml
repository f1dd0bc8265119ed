[package]
name = "flowtracer"
version = "0.1.0"
edition = "2021"
publish = false

[dependencies]
chrono = "=0.4.45"
uuid = { version = "=1.29.0", features = ["v4"] }
crossterm = "=0.28.1"
regex-syntax = "=0.8.11"
regex = "=1.13.1"
clap = { version = "=4.6.7", features = ["derive"] }
anyhow = "=1.0.104"
