[package]
name = "word_freqs"
version = "0.1.0"
edition = "2021"
publish = false

[dependencies]
simd-json = "*"
zstd = "*"
ruzstd = "*"
rayon = "*"
kdam = "*"
