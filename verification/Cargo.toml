[package]
name = "disk_usage_core"
version = "0.1.0"
edition = "2021"
publish = false

[dependencies]
sled = "=0.34.7"
serde = { version = "=1.0.229", features = ["derive"] }
warp = { version = "=0.4.3", features = ["server"] }
webbrowser = "=1.2.4"
dirs = "=7.0.0"
tokio = { version = "=1.53.2", features = ["rt-multi-thread", "macros"] }
