[package]
name = "mf4_rs"
version = "0.1.0"
edition = "2021"
publish = false

[dependencies]
byteorder = "1.5"
memmap2 = "0.9"
