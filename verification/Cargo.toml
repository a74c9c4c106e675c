[package]
name = "insights"
version = "0.1.0"
edition = "2021"
publish = false

[dependencies]
regex = "1"
serde = { version = "1", features = ["derive"] }
serde_json = "1"
sysinfo = "0.32"
tokio = { version = "1", features = ["rt-multi-thread", "macros", "time", "fs", "io-util", "net"] }
reqwest = { version = "0.12", default-features = false, features = ["json", "stream"] }
axum = "0.7"
async-stream = "0.3"
futures-util = "0.3"
http-body-util = "0.1"
