[package]
name = "chisel"
version = "0.1.0"
edition = "2021"
publish = false

[dependencies]
getrandom = "0.2"
libc = "0.2"
rustc-hash = "2"
xxhash-rust = { version = "0.8", features = ["xxh3"] }
zeroize = "1"
