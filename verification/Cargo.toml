[package]
name = "issue_delivery"
version = "0.1.0"
edition = "2021"
publish = false

[dependencies]
tokio = { version = "1", features = ["rt-multi-thread", "macros", "time"] }
sqlx = { version = "0.8", features = ["runtime-tokio", "postgres", "uuid"] }
uuid = "1"
serde = { version = "1", features = ["derive"] }
secrecy = { version = "0.10", features = ["serde"] }
config = "0.14"
anyhow = "1"
thiserror = "1"
tracing = "0.1"
tracing-subscriber = { version = "0.3", features = ["env-filter"] }
tracing-bunyan-formatter = "0.3"
tracing-log = "0.2"
