[package]
name = "atv_iptv_proxy"
version = "0.1.0"
edition = "2021"
publish = false

[dependencies]
serde = { version = "1", features = ["derive"] }
serde_json = "1"
sha2 = "0.10"
des = "0.8"
ecb = { version = "0.1", features = ["alloc"] }
encoding_rs = "0.8"
ureq = "2"
