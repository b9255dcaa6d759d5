[package]
name = "gitlab_collector"
version = "0.1.0"
edition = "2021"
publish = false

[dependencies]
anyhow = "1"
async-trait = "0.1"
chrono = { version = "0.4", features = ["serde"] }
deadpool = "*"
futures = "0.3"
gitlab = "*"
reqwest = { version = "*", default-features = false, features = ["json"] }
serde = { version = "1", features = ["derive"] }
serde_json = "1"
tracing = "0.1"
urlencoding = "2"

[dev-dependencies]
regex = "1"
