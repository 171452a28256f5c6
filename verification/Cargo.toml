[package]
name = "novel_segment"
version = "0.1.0"
edition = "2021"
publish = false

[dependencies]
regex = "1"
serde = { version = "1", features = ["derive"] }
serde_json = "1"
glob = "0.3"
tiny_http = "0.12"
url = "2"
