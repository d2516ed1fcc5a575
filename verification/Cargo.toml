[package]
name = "riftx"
version = "0.1.0"
edition = "2021"
publish = false

[dependencies]
argon2 = "=0.5.3"
chacha20poly1305 = "=0.10.1"
rand = "=0.9.5"
rayon = "=1.12.0"
zeroize = "=1.9.1"
liblzma = { version = "=0.4.9", features = ["parallel"] }
tar = "=0.4.46"
indicatif = "=0.18.6"
rpassword = "=7.5.4"
clap = { version = "=4.6.7", features = ["derive"] }

[dev-dependencies]
tempfile = "=3.27.0"
