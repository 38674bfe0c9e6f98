[package]
name = "pokerbots"
version = "0.1.0"
edition = "2021"
publish = false

[dependencies]
rand = "0.8"
url = "2"
tokio = { version = "1", features = ["process", "io-util", "rt-multi-thread", "macros", "time", "fs"] }
serde = { version = "1", features = ["derive"] }
serde_json = "1"
maud = "*"
log = "0.4"
anyhow = "1"
