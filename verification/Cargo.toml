[package]
name = "embedded-sdmmc"
version = "0.9.0"
edition = "2021"
publish = false

[dependencies]
byteorder = { version = "1", default-features = false }
heapless = "0.8"
