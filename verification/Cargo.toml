[package]
name = "quaestor"
version = "0.1.0"
edition = "2021"
publish = false

[dependencies]
anyhow = "1"
base64 = "*"
colored = "*"
serde = { version = "1", features = ["derive"] }
serde_json = "1"
structopt = "0.3"
ureq = "*"
