[package]
name = "qem"
version = "0.1.0"
edition = "2021"
publish = false

[dependencies]
crc32fast = "=1.5.4"
encoding_rs = "=0.8.44"
memchr = "=2.8.3"
ropey = { version = "=1.6.1", default-features = false, features = ["simd"] }
