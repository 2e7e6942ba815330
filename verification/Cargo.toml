[package]
name = "aglio"
version = "0.1.0"
edition = "2021"
publish = false

[dependencies]
anyhow = "1"
chrono = { version = "0.4", features = ["serde"] }
clap = { version = "4", features = ["derive"] }
clap_derive = "4"
crc = "3"
rocket = "0.5"
rocket_ws = "0.1"
rusb = "*"
serde = { version = "1", features = ["derive"] }
serde_derive = "1"
serde_json = "1"
serde_with = "3"
thiserror = "*"
tokio = { version = "1", features = ["full"] }
uuid = "1"
