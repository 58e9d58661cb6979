[package]
name = "cipherant"
version = "0.1.0"
edition = "2021"
publish = false

[dependencies]
pdf-extract = "*"
reqwest = { version = "*", default-features = false, features = ["blocking", "rustls-tls"] }
serde = { version = "*", features = ["derive"] }
serde_json = "*"
