[package]
name = "nemweb_reports"
version = "0.1.0"
edition = "2021"
publish = false

[dependencies]
chrono = { version = "0.4", default-features = false, features = ["std"] }
csv = "1"
reqwest = { version = "0.12", default-features = false, features = ["blocking", "rustls-tls"] }
rust_decimal = "1"
serde = { version = "1", features = ["derive"] }
zip = { version = "*", default-features = false, features = ["deflate"] }
