[package]
name = "hex_core"
version = "0.1.0"
edition = "2021"
publish = false

[dependencies]
bevy_color = { version = "=0.19.1", default-features = false, features = ["std"] }
bevy_math = { version = "=0.19.1", default-features = false, features = ["std"] }
http = "=1.5.0"
serde = { version = "=1.0.229", features = ["derive"] }
serde_json = "=1.0.154"
