[package]
name = "stream_dump"
version = "0.1.0"
edition = "2021"
publish = false

[dependencies]
hmac = "0.12"
sha1 = "0.10"
base64 = "0.22"
hyper = "0.10"
url = "1"
