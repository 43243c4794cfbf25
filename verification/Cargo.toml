[package]
name = "occasion"
version = "0.1.0"
edition = "2021"
publish = false

[dependencies]
chrono = { version = "*", features = ["serde"] }
colored = "*"
dirs = "*"
serde = { version = "*", features = ["derive"] }
serde_json = "*"
thiserror = "*"
