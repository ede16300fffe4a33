[package]
name = "glint"
version = "0.1.0"
edition = "2021"
publish = false

[dependencies]
half = "2"
serde = { version = "1", features = ["derive"] }
serde_json = "1"
tokio = { version = "1", features = ["full"] }
tokio-stream = "0.1"
axum = "*"
tower-http = { version = "*", features = ["cors"] }
rayon = "1"
ratatui = "*"
crossterm = "*"
