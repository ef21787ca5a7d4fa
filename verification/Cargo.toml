[package]
name = "rusty_pstore"
version = "0.1.0"
edition = "2021"
publish = false

[dependencies]
aes-gcm = "0.10"
base64 = "0.22"
hmac = "0.12"
pbkdf2 = "0.12"
sha2 = "0.10"
rand = "0.9"
serde = { version = "1", features = ["derive"] }
serde_json = "1"
colored = "*"
struct_iterable = "*"
pyo3 = "*"
