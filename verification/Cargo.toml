[package]
name = "protobuf_to_json"
version = "0.1.0"
edition = "2021"
publish = false

[dependencies]
base64 = "*"
serde_json = "*"
simdutf8 = "*"
stfu8 = "*"
