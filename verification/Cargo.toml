[package]
name = "axboot"
version = "0.1.0"
edition = "2021"
publish = false

[dependencies]
cpio_reader = "*"
hashbrown = "*"
ahash = "*"
