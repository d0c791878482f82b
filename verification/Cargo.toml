[package]
name = "multipart-stream"
version = "0.1.0"
edition = "2021"
publish = false

[dependencies]
bytes = "1"
futures = "0.3"
http = "1"
httparse = "1"
memchr = "2"
pin-project = "1"
