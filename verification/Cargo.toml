[package]
name = "lotus-lib"
version = "0.2.0"
edition = "2021"
publish = false

[dependencies]
zerocopy = "0.7"
opus-decoder = "*"
bytebuffer = "2"
anyhow = "1"
log = "0.4"
