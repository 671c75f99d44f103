[package]
name = "agit_selfhost"
version = "0.2.0"
edition = "2021"
publish = false

[dependencies]
anyhow = "1"
chrono = "=0.4.45"
clap = { version = "4", features = ["derive"] }
dunce = "1"
fs2 = "0.4"
hex = "=0.4.3"
rusqlite = { version = "=0.41.1", features = ["bundled"] }
serde = { version = "1", features = ["derive"] }
serde_json = "=1.0.154"
sha2 = "=0.10.9"
tempfile = "3"
tiny_http = "0.12"
url = "=2.5.8"
uuid = { version = "1", features = ["v4"] }
