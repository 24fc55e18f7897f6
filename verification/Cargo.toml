[package]
name = "wsroom"
version = "0.1.0"
edition = "2021"
publish = false

[dependencies]
sha1 = "0.10"
base64ct = { version = "1", features = ["alloc"] }
async-std = "1"
tempfile = "3"
