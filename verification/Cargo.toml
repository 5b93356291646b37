[package]
name = "egg_viz"
version = "0.1.0"
edition = "2021"
publish = false

[dependencies]
itertools = "=0.15.0"
anyhow = "*"
argh = "*"
egg = "=0.11.0"
futures = "*"
include_dir = "*"
notify = "=8.2.0"
serde = { version = "*", features = ["derive"] }
serde_json = "*"
tokio = { version = "*", features = ["full"] }
tokio-stream = "*"
walkdir = "*"
warp = { version = "=0.4.3", features = ["server", "websocket"] }
webbrowser = "*"
