[package]
name = "wyd"
version = "0.1.0"
edition = "2021"
publish = false

[dependencies]
anyhow = "*"
chrono = "*"
chrono-english = "*"
clap = { version = "*", features = ["derive"] }
dirs = "*"
humantime = "*"
rodio = "*"
ron = "*"
serde = { version = "*", features = ["derive"] }
url = "*"
uuid = { version = "*", features = ["v4"] }
