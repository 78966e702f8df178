[package]
name = "dows"
version = "0.1.0"
edition = "2021"
publish = false

[dependencies]
anyhow = "1"
base64ct = { version = "1", features = ["alloc"] }
httparse = "1"
percent-encoding = "2"
sha1 = "0.10"
tokio = { version = "1", features = ["io-util", "macros", "net", "rt-multi-thread", "signal", "sync"] }
