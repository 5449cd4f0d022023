[package]
name = "needle"
version = "0.1.0"
edition = "2021"
publish = false

[dependencies]
serde_json = "=1.0.154"
encoding_rs = "=0.8.44"
chardetng = "=0.1.17"
serde = { version = "=1.0.229", features = ["derive"] }
anyhow = "=1.0.104"
thiserror = "=2.0.21"
tracing = "=0.1.44"
tracing-subscriber = { version = "=0.3.23", features = ["env-filter"] }
eframe = { version = "0.32", default-features = false, features = ["default_fonts", "glow", "x11"] }
rfd = "0.15"
arboard = { version = "3", default-features = false }
notify = "8"
