[package]
name = "lzf"
version = "1.0.0"
edition = "2021"
publish = false

[dependencies]
libc = "0.2"

[dev-dependencies]
quickcheck = { version = "1", default-features = false }
