[package]
name = "ledalert"
version = "0.1.0"
edition = "2021"
publish = false

[dependencies]
anyhow = "=1.0.104"
serde = { version = "=1.0.229", features = ["derive"] }
serde_json = "=1.0.154"
png = "=0.18.1"
roxmltree = "=0.21.2"
resvg = "=0.49.0"
tokio = { version = "1", features = ["rt", "time", "sync", "macros"] }
zbus = { version = "5", default-features = false, features = ["tokio"] }
futures-util = "0.3"
