[package]
name = "scry_asm"
version = "0.1.0"
edition = "2021"
publish = false

[dependencies]
byteorder = "1"
regex = "1"
scry_isa = "*"
