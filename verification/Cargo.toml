[package]
name = "succinct_json"
version = "0.1.0"
edition = "2021"
publish = false

[dependencies]
vers-vecs = "*"
flate2 = "*"
lru = "*"
roaring = "*"
bitpacking = "*"
struson = "*"
