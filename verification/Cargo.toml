[package]
name = "statika"
version = "0.3.4"
edition = "2021"
publish = false

[dependencies]
libc = "0.2"
