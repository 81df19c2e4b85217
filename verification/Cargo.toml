[package]
name = "envio"
version = "0.1.0"
edition = "2021"
publish = false

[dependencies]
chacha20poly1305 = "0.10"
colored = "2"
getrandom = "0.2"
inquire = "0.6"
pbkdf2 = "0.12"
sha2 = "0.10"
ureq = "2"
url = "2"
