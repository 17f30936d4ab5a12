[package]
name = "summeriq"
version = "0.1.0"
edition = "2021"
publish = false

[dependencies]
zip = "*"
sha2 = "*"
chrono = "*"
urlencoding = "*"
dashmap = "*"
serde = { version = "*", features = ["derive"] }
serde_json = "*"
reqwest = { version = "*", default-features = false, features = ["blocking", "json", "rustls-tls"] }
