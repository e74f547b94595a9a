[package]
name = "activity"
version = "0.1.0"
edition = "2021"
publish = false

[dependencies]
chrono = "0.4"
memchr = "2"
prost = "*"
rusqlite = { version = "*", features = ["bundled"] }
tokio = { version = "1", features = ["full"] }
anyhow = "1"
camino = "1"
miette = { version = "*", features = ["fancy"] }
thiserror = "*"
serde = { version = "1", features = ["derive"] }
toml = "*"
