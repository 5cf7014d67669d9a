[package]
name = "nodus"
version = "0.1.0"
edition = "2021"
publish = false

[dependencies]
serde = { version = "1", features = ["derive"] }
ron = "0.7"
chrono = { version = "0.4", features = ["serde"] }
dirs = "4"
