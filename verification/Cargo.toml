[package]
name = "mark_six"
version = "0.1.0"
edition = "2021"
publish = false

[dependencies]
regex = "1"
calamine = "0.26"
chrono = "0.4"
polars = { version = "0.45", default-features = false, features = ["ipc", "json"] }
reqwest = { version = "0.12", default-features = false, features = ["blocking", "rustls-tls"] }
serde = { version = "1", features = ["derive"] }
serde_json = "1"
