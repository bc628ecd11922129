[package]
name = "gif2json"
version = "0.1.0"
edition = "2021"
publish = false

[dependencies]
image = { version = "*", default-features = false, features = ["gif"] }

[dev-dependencies]
serde_json = "*"
