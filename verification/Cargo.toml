[package]
name = "libanything"
version = "0.1.0"
edition = "2021"
publish = false

[dependencies]
jwalk = "0.8"
libc = "0.2"
log = "0.4"
zstd = "0.13"
