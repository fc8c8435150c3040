[package]
name = "code_status_scanner"
version = "0.1.0"
edition = "2021"
publish = false

[dependencies]
regex = "*"
clap = { version = "*", features = ["derive"] }
colored = "*"
walkdir = "*"
