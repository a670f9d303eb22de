[package]
name = "passman"
version = "0.1.0"
edition = "2021"
publish = false

[dependencies]
argon2 = "0.5"
chacha20poly1305 = "0.10"
ciborium = "0.2"
clap = { version = "4", features = ["derive"] }
getrandom = "0.2"
libc = "0.2"
rpassword = "7"
serde = { version = "1", features = ["derive"] }
thiserror = "1"
zeroize = "1"
