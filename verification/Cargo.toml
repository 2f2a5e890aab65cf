[package]
name = "x_hosts"
version = "0.1.0"
edition = "2021"
publish = false

[dependencies]
chrono = "0.4.45"
dirs = "6.0.0"
encoding_rs = "0.8.44"
reqwest = { version = "0.12.28", default-features = false, features = ["blocking", "rustls-tls"] }
serde = { version = "1.0.229", features = ["derive"] }
uuid = { version = "1.29.0", features = ["v4"] }
