[package]
name = "pseudofs"
version = "0.1.0"
edition = "2021"
publish = false

[dependencies]
bytesize = "*"
chrono = "0.4"
lazy_static = "1"
libc = "0.2"
regex = "1"
