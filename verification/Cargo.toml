[package]
name = "clipedia"
version = "0.1.0"
edition = "2021"
publish = false

[dependencies]
regex = "=1.13.1"
uuid = { version = "=1.29.0", features = ["v4"] }
chrono = { version = "=0.4.45", features = ["serde"] }
serde = { version = "=1.0.229", features = ["derive"] }
tokio = { version = "=1.54.1", features = ["time"] }
arboard = { version = "=3.7.0", default-features = false }
rusqlite = { version = "=0.41.0", features = ["bundled"] }
