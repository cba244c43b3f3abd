[package]
name = "lserver"
version = "0.1.0"
edition = "2021"
publish = false

[dependencies]
anyhow = "*"
axum = "*"
serde = { version = "*", features = ["derive"] }
tokio = { version = "*", features = ["rt-multi-thread", "macros", "net", "sync"] }
tower-http = { version = "*", features = ["cors"] }
