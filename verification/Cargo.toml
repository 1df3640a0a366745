[package]
name = "discorddrive"
version = "0.1.0"
edition = "2021"
publish = false

[dependencies]
nbdkit = "*"
reqwest = { version = "0.11", default-features = false, features = ["rustls-tls"] }
serenity = { version = "0.11", default-features = false, features = ["builder", "client", "gateway", "http", "model", "rustls_backend"] }
tokio = { version = "1", features = ["rt-multi-thread"] }
