[package]
name = "jqr"
version = "0.1.0"
edition = "2021"
publish = false

[dependencies]
nom = "7"
anyhow = "1"
clap = { version = "3", features = ["derive"] }
tracing = "0.1"
tracing-subscriber = { version = "0.3", features = ["env-filter"] }
