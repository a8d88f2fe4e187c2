[package]
name = "radip"
version = "0.1.0"
edition = "2021"
publish = false

[dependencies]
frozenset = "*"
serde = { version = "1", features = ["derive"] }
serde_json = "1"
