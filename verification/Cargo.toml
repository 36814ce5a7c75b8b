[package]
name = "bfflib"
version = "0.1.0"
edition = "2021"
publish = false

[dependencies]
chrono = "*"
clap = { version = "*", features = ["derive"] }
comfy-table = "*"
file-mode = "*"
filetime = "*"
normalize-path = "*"
users = "*"
