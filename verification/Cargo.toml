[package]
name = "rs_shards"
version = "0.1.0"
edition = "2021"
publish = false

[dependencies]
reed-solomon-simd = "*"
