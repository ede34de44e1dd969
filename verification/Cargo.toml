[package]
name = "dns_camo"
version = "0.1.0"
edition = "2021"
publish = false

[dependencies]
bitvec = "*"
data-encoding = "*"
chacha20poly1305 = "*"
clap = { version = "*", features = ["derive"] }
