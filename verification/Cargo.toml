[package]
name = "neon-kernel"
version = "0.3.0"
edition = "2021"
publish = false

[dependencies]
libm = "0.2"
