[package]
name = "quiche"
version = "0.1.0"
edition = "2021"
publish = false

[dependencies]
ring = "0.17"
libc = "0.2"
log = "0.4"
lazy_static = "1"
