[package]
name = "worklog"
version = "0.1.0"
edition = "2021"
publish = false

[dependencies]
chrono = { version = "0.4", default-features = false, features = ["std", "serde"] }
regex = "1"
itertools = "0.12"
csv = "1"
serde = { version = "1", features = ["derive"] }
serde_json = "1"
