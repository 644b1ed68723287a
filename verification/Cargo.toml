[package]
name = "sevenz_codecs"
version = "0.1.0"
edition = "2021"
publish = false

[dependencies]
byteorder = "1"
brotli = "8"
lzma-sdk-sys = "*"
