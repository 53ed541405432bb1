[package]
name = "linkpath"
version = "0.1.0"
edition = "2021"
publish = false

[dependencies]
anyhow = "1"
distance = "0.4"
reqwest = { version = "0.12", default-features = false, features = ["rustls-tls"] }
scraper = "*"
tokio = { version = "1", features = ["macros", "rt-multi-thread", "sync"] }
