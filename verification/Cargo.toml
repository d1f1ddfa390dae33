[package]
name = "kodecks_client"
version = "0.1.0"
edition = "2021"
publish = false

[dependencies]
base64 = "0.22"
flate2 = "1"
k256 = { version = "0.13", features = ["schnorr"] }
rand = { version = "0.8", features = ["small_rng"] }
image = { version = "0.25", default-features = false, features = ["png"] }
unic-langid = "0.9"
url = "2"
serde = { version = "1", features = ["derive"] }
serde_json = "1"
