[package]
name = "kepler"
version = "0.1.0"
edition = "2021"
publish = false

[dependencies]
murmur3 = "*"
memmap2 = "*"
bytes = "*"
thiserror = "*"
