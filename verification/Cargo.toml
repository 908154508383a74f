[package]
name = "hottake"
version = "0.1.0"
edition = "2021"
publish = false

[dependencies]
chrono = "*"
uuid = { version = "*", features = ["v4"] }
axum = { version = "*", features = ["ws"] }
tokio = { version = "*", features = ["rt-multi-thread", "macros", "net", "sync"] }
serde = { version = "*", features = ["derive"] }
serde_json = "*"
tower-http = { version = "*", features = ["cors"] }
