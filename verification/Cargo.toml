[package]
name = "sharing"
version = "0.1.0"
edition = "2021"
publish = false

[dependencies]
rand = "=0.7.3"
stream-cipher = "=0.4.1"
chacha20 = "=0.4.3"

[dev-dependencies]
gf = "=0.6.1"
