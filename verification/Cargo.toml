[package]
name = "tsuitate_bot"
version = "0.1.0"
edition = "2021"
publish = false

[dependencies]
rand = "0.9"
rust_socketio = "0.6"
serde = { version = "1", features = ["derive"] }
serde_json = "1"
sha2 = "0.10"
tiny_http = "0.12"
