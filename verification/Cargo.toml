[package]
name = "froklog-watch"
version = "0.1.0"
edition = "2021"
publish = false

[dependencies]
anyhow = "1"
dirs = "5"
serde = { version = "1", features = ["derive"] }
toml = "0.8"

[dev-dependencies]
regex = "1"
