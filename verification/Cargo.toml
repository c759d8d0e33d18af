[package]
name = "ros_core_rs"
version = "0.1.0"
edition = "2021"
publish = false

[dependencies]
anyhow = "=1.0.104"
dxr = "=0.8.0"
dxr_client = { version = "=0.8.0", features = ["reqwest"] }
dxr_server = { version = "=0.8.0", features = ["axum"] }
env_logger = "=0.11.11"
log = "=0.4.34"
tokio = { version = "=1.53.2", features = ["rt-multi-thread", "macros", "net"] }
url = "=2.5.8"
uuid = { version = "=1.27.0", features = ["v1", "v4"] }
