[package]
name = "cch_23"
version = "0.1.0"
edition = "2021"
publish = false

[dependencies]
base64 = "=0.21.7"
actix-web = "=4.18.1"
actix-files = "=0.6.10"
serde = { version = "=1.0.229", features = ["derive"] }
serde_json = "=1.0.154"
reqwest = { version = "=0.11.27", default-features = false, features = ["json", "rustls-tls"] }
tracing = "=0.1.44"
tracing-actix-web = "=0.7.25"

[dev-dependencies]
fancy-regex = "=0.12.0"
