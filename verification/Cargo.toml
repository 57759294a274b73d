[package]
name = "drone_net"
version = "0.1.0"
edition = "2021"
publish = false

[dependencies]
serde = { version = "*", features = ["derive"] }
serde_json = "*"
crossbeam-channel = "*"

[dev-dependencies]
rand = "0.8"
