[package]
name = "yotei_notify"
version = "0.1.0"
edition = "2021"
publish = false

[dependencies]
axum = { version = "*", features = ["ws"] }
tokio = { version = "*", features = ["rt-multi-thread", "macros", "net", "sync"] }
sqlx = { version = "*", default-features = false, features = ["postgres", "runtime-tokio"] }
futures = "*"
async-stream = "*"
serde = { version = "*", features = ["derive"] }
serde_json = "*"
tracing = "*"
tracing-subscriber = { version = "*", features = ["env-filter"] }
tower-http = { version = "*", features = ["fs", "trace"] }
listenfd = "*"
uuid = { version = "*", features = ["v4"] }
