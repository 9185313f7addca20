[package]
name = "dsnval"
version = "0.1.0"
edition = "2021"
publish = false

[dependencies]
axum = "*"
tokio = { version = "*", features = ["rt-multi-thread", "net", "macros"] }
reqwest = { version = "*", default-features = false, features = ["rustls-tls"] }
