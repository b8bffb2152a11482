[package]
name = "quagga"
version = "0.1.0"
edition = "2021"
publish = false

[dependencies]
warrah = "*"
clap = { version = "*", features = ["derive"] }
ignore = "*"
home = "*"
chrono = "*"
arboard = "*"
