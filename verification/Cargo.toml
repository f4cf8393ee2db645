[package]
name = "qwer"
version = "0.3.0"
edition = "2021"
publish = false

[dependencies]
base64 = "0.13"
snap = "1"
twox-hash = "*"
duct = "*"
