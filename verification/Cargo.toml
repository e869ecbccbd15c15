[package]
name = "minidialer"
version = "0.1.0"
edition = "2021"

[dependencies]
anyhow = "*"
async-channel = "*"
axum = { version = "*", features = ["ws"] }
clap = { version = "*", features = ["derive"] }
futures = "*"
libc = "*"
reqwest = { version = "*", default-features = false }
serde = { version = "*", features = ["derive"] }
tokio = { version = "*", features = ["full"] }
tokio-util = { version = "*", features = ["io"] }
tracing = "*"
tracing-subscriber = { version = "*", features = ["env-filter"] }
uuid = { version = "*", features = ["v4"] }
