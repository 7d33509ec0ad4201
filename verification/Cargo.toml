[package]
name = "boblee"
version = "0.1.0"
edition = "2021"
publish = false

[dependencies]
indextree = "*"
rand = "*"
serde = { version = "1", features = ["derive"] }
serde_json = "1"
tiny_http = "*"
