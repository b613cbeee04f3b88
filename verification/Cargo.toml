[package]
name = "encrypt"
version = "0.6.0"
edition = "2021"
publish = false

[dependencies]
argon2 = "0.5"
axum = { version = "0.7", features = ["multipart"] }
base64 = "0.22"
chacha20poly1305 = "0.10"
indicatif = "0.17"
libc = "0.2"
rand = "0.8"
rpassword = "7"
sha2 = "0.10"
tokio = { version = "1", features = ["io-util", "macros", "net", "rt-multi-thread", "signal", "sync", "time"] }
walkdir = "2"
zeroize = "1"
