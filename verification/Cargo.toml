[package]
name = "protohackers"
version = "0.1.0"
edition = "2021"
publish = false

[dependencies]
regex = "1"
serde = { version = "1", features = ["derive"] }
serde_json = "1"
tokio = { version = "1", features = ["full"] }
futures = "0.3"
async-stream = "0.3"
clap = { version = "4", features = ["derive"] }
md5 = "0.7"
uuid = { version = "1", features = ["v4"] }
