[package]
name = "pokerrs"
version = "0.1.0"
edition = "2021"
publish = false

[dependencies]
async-stream = "0.3"
async-trait = "0.1"
futures-util = "0.3"
hyper = { version = "0.14", features = ["full"] }
hyper-rustls = "0.23"
rand = "0.8"
rustls = "0.20"
rustls-pemfile = "1"
serde = { version = "1", features = ["derive"] }
serde_json = "1"
tokio = { version = "1", features = ["full"] }
tokio-rustls = "0.23"
ts-rs = "5"
url = "2"
