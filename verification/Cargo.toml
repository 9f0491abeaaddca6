[package]
name = "frontend"
version = "0.1.0"
edition = "2021"
publish = false

[dependencies]
rustc-hash = "2"
hashbrown = "*"
indexmap = "*"
smallvec = "1"
thin-vec = "*"
either = "1"
itertools = "*"
parking_lot = "*"
libm = "*"
libc = "*"
