[package]
name = "traefik_log_monitor"
version = "0.1.0"
edition = "2021"
publish = false

[dependencies]
anyhow = "1"
clearscreen = "*"
serde = { version = "1", features = ["derive"] }
serde_json = "1"
