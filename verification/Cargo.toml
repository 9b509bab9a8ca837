[package]
name = "areq"
version = "0.1.0"
edition = "2021"
publish = false

[dependencies]
bytes = "1"
http = "1"
httparse = "1"
memchr = "2"
flate2 = "1"
url = "2"
futures-lite = "2"
async-channel = "2"
pin-project-lite = "0.2"
