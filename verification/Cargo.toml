[package]
name = "lost_commander"
version = "0.1.0"
edition = "2021"
publish = false

[dependencies]
chrono = "0.4"
delharc = "*"
dirs = "*"
fs4 = "*"
serde = { version = "1", features = ["derive"] }
serde_json = "1"
sevenz-rust2 = { version = "0.13", features = ["aes256"] }
toml = "0.8"
