[package]
name = "signtool"
version = "0.1.0"
edition = "2021"
publish = false

[dependencies]
libelf = "*"
openssl = "0.10"
sha2 = "0.10"
