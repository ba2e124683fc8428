[package]
name = "bzip2_verified"
version = "0.1.0"
edition = "2021"
publish = false

[dependencies]
libc = "0.2"

[dev-dependencies]
bzip2 = "0.4"
bzip2-sys = "0.1"
