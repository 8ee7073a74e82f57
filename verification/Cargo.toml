[package]
name = "move_window"
version = "0.1.0"
edition = "2021"
publish = false

[dependencies]
anyhow = "1"
argh = "0.1"
cocoa = "0.26"
core-foundation = "0.10"
core-graphics = "0.24"
objc = "0.2"
serde = { version = "1", features = ["derive"] }
serde_json = "1"
