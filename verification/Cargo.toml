[package]
name = "oc_rs"
version = "0.1.0"
edition = "2021"
publish = false

[dependencies]
epoll-rs = "*"
anyhow = "*"

[dev-dependencies]
serde_json = "*"
uuid = "*"
