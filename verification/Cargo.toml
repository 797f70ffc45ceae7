[package]
name = "obsidian"
version = "0.1.0"
edition = "2021"
publish = false

[dependencies]
cookie = "*"
serde = { version = "1", features = ["derive"] }
serde_json = "1"
url = "2"
async-trait = "0.1"
futures = "0.3"
chrono = "0.4"
rand = "0.8"
