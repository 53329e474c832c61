[package]
name = "axum-app-create"
version = "0.4.0"
edition = "2021"
publish = false

[dependencies]
semver = "1"
toml = "*"
serde = { version = "1", features = ["derive"] }
serde_json = "1"
clap = { version = "4", features = ["derive"] }
dirs = "*"
git2 = { version = "*", default-features = false }
inquire = "*"
chrono = "*"
tracing = "0.1"
tracing-subscriber = { version = "0.3", features = ["env-filter"] }
anyhow = "1"
