[package]
name = "wks"
version = "0.1.0"
edition = "2021"
publish = false

[dependencies]
url = "2"
chrono = "0.4"
anyhow = "1"
clap = { version = "4", features = ["derive"] }
console = "*"
dirs = "*"
ignore = "*"
itertools = "*"
rand = "0.9"
serde_json = "1"
