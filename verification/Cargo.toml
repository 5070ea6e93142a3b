[package]
name = "schemajs"
version = "0.1.0"
edition = "2021"
publish = false

[dependencies]
uuid = { version = "=1.29.0", features = ["v4"] }
sha2 = "=0.10.9"
bcrypt = "=0.15.1"
serde = { version = "=1.0.229", features = ["derive"] }
serde_json = "=1.0.154"
thiserror = "=1.0.69"
anyhow = "=1.0.104"
walkdir = "=2.5.0"
dirs = "=5.0.1"
tokio = { version = "=1.54.1", features = ["sync"] }
prost-types = "=0.13.5"
dashmap = "5"
