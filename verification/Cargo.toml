[package]
name = "donno"
version = "0.1.0"
edition = "2021"
publish = false

[dependencies]
chrono = "*"
clap = "*"
directories = "*"
glob = "*"
serde = { version = "*", features = ["derive"] }
serde_json = "*"
