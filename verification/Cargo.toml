[package]
name = "bitweaving"
version = "0.1.0"
edition = "2021"
publish = false

[dependencies]
bit-vec = "0.6"
byteorder = "1"
config = "0.11"
core_affinity = "0.5"
packed_simd = "0.3"
