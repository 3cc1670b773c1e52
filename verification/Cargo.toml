[package]
name = "celestial"
version = "0.1.0"
edition = "2021"
publish = false

[dependencies]
uuid = { version = "=1.29.0", features = ["v4", "serde"] }
serde = { version = "=1.0.229", features = ["derive"] }
serde-binary = "=0.5.0"
glam = "=0.34.2"
rust-ini = "=0.21.3"
serde_json = "=1.0.154"
egui = "=0.33.3"
egui-keybind = "=0.8.0"
thiserror = "=2.0.21"
tracing = "=0.1.44"
tracing-subscriber = { version = "0.3", features = ["env-filter"] }
tracing-appender = "0.2"
