[package]
name = "mycelial_state"
version = "0.1.0"
edition = "2021"
publish = false

[dependencies]
serde = { version = "*", features = ["derive"] }
serde_json = "*"
bs58 = "*"
chrono = "*"
uuid = { version = "*", features = ["v4"] }
lru = "*"
