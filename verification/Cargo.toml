[package]
name = "mydoo_viewer"
version = "0.1.0"
edition = "2021"
publish = false

[dependencies]
base64 = "0.22"
cfb = "*"
encoding_rs = "0.8"
flate2 = "1"
quick-xml = "0.37"
serde = { version = "1", features = ["derive"] }
serde_json = "1"
zip = { version = "*", default-features = false, features = ["deflate"] }
