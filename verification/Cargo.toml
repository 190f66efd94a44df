[package]
name = "mcwr"
version = "0.3.0"
edition = "2021"
publish = false

[dependencies]
clap = { version = "*", features = ["derive"] }
serde = { version = "*", features = ["derive"] }
serde_json = "*"
flate2 = "*"
tar = "*"
