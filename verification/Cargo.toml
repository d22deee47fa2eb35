[package]
name = "moonpool"
version = "0.1.0"
edition = "2021"
publish = false

[dependencies]
async-trait = "=0.1.92"
libc = "=0.2.191"
rand = "0.9"
serde_json = "=1.0.154"
tokio = { version = "=1.54.1", features = ["io-util", "macros", "net", "rt", "sync", "time"] }
tokio-util = "=0.7.20"
tracing = "=0.1.44"
