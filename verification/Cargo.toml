[package]
name = "category_stats"
version = "0.1.0"
edition = "2021"
publish = false

[dependencies]
anyhow = "1"
crossbeam = "0.8"
fxhash = "0.2"
memchr = "2"
memmap2 = "0.9"
