[package]
name = "vuer_rpc"
version = "0.1.0"
edition = "2021"
publish = false

[dependencies]
base64 = "*"
chrono = "*"
image = { version = "*", default-features = false, features = ["png", "jpeg"] }
indexmap = { version = "*", features = ["serde"] }
ndarray = "*"
rmp-serde = "*"
serde = { version = "*", features = ["derive"] }
serde_json = "*"
thiserror = "*"
tokio = { version = "*", features = ["sync", "time", "rt", "macros"] }
uuid = { version = "*", features = ["v4"] }
