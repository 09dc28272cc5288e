[package]
name = "depscout"
version = "0.1.0"
edition = "2021"
publish = false

[dependencies]
semver = "1"
reqwest = { version = "*", default-features = false, features = ["blocking", "gzip", "rustls-tls"] }
serde = { version = "1", features = ["derive"] }
serde_derive = "1"
serde_json = "1"
