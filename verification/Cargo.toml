[package]
name = "proxyd"
version = "0.1.0"
edition = "2021"
publish = false

[dependencies]
heed = "0.11"
sha2 = "0.10"
csv = "1"
serde = { version = "1", features = ["derive"] }
serde_json = "1"
tokio = { version = "1", features = ["macros", "rt-multi-thread", "fs", "io-util", "signal", "time"] }
actix-web = "4"
reqwest = { version = "0.12", default-features = false, features = ["rustls-tls"] }

[dev-dependencies]
tempfile = "3"
