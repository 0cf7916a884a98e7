[package]
name = "make_npdata_rs"
version = "1.3.4"
edition = "2021"
publish = false

[dependencies]
aes = "0.8"
anyhow = "1"
cmac = "0.7"
digest = { version = "0.10", features = ["mac"] }
hmac = "0.12"
sha1 = "0.10"
