[package]
name = "hashset_bench"
version = "0.1.0"
edition = "2021"
publish = false

[dependencies]
ahash = "0.8"
bitvec = "1"
csv = "1"
hdrhistogram = "7"
rand = "0.8"
