[package]
name = "iqfeed"
version = "0.1.0"
edition = "2021"
publish = false

[dependencies]
async-channel = "*"
fast-float = "*"
lexical = "*"
memmem = "0.1"
thiserror = "*"
time = { version = "*", features = ["parsing"] }
tokio = { version = "1", features = ["io-util", "net"] }
