[package]
name = "destream_json"
version = "0.1.0"
edition = "2021"
publish = false

[dependencies]
async-trait = "=0.1.92"
base64 = "=0.13.1"
destream = "0.1"
futures = "=0.3.34"
