[package]
name = "message_board"
version = "0.1.0"
edition = "2021"
publish = false

[dependencies]
bytes = "=1.12.1"
chrono = { version = "=0.4.45", features = ["serde"] }
copypasta = { version = "=0.10.2", default-features = false, features = ["x11"] }
flexi_logger = "=0.31.10"
http-body-util = "=0.1.5"
hyper = { version = "=1.11.1", features = ["client", "http1"] }
hyper-util = { version = "=0.1.21", features = ["tokio"] }
log = "=0.4.34"
ratatui = "=0.30.2"
serde = { version = "=1.0.229", features = ["derive"] }
serde_json = "=1.0.151"
tokio = { version = "=1.53.2", features = ["full"] }
