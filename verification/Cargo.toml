[package]
name = "place_canvas"
version = "0.1.0"
edition = "2021"
publish = false

[dependencies]
base64 = "0.13"
crypto-hash = "0.3"
serde = "1"
serde_derive = "1"
serde_json = "1"
ws = "0.9"
