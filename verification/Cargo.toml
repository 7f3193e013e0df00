[package]
name = "tuicr"
version = "0.1.0"
edition = "2021"
publish = false

[dependencies]
uuid = { version = "*", features = ["v4"] }
chrono = "*"
git2 = "*"
arboard = "*"
serde = { version = "*", features = ["derive"] }
serde_json = "*"
thiserror = "*"
