[package]
name = "cdn_scan"
version = "0.1.0"
edition = "2021"
publish = false

[dependencies]
ipnetwork = "0.20"
rand = "0.8"
url = "2"
serde = { version = "1", features = ["derive"] }
serde_json = "1"
clap = { version = "4", features = ["derive"] }
threadpool = "1.8"
tokio = { version = "1", features = ["macros", "rt-multi-thread"] }
reqwest = { version = "0.12", default-features = false, features = ["rustls-tls"] }
fern = "0.6"
log = "0.4"
chrono = "0.4"
