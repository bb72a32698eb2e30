[package]
name = "icecompr"
version = "0.1.0"
edition = "2021"
publish = false

[dependencies]
heapless = "=0.8.0"
svd-parser = "=0.14.10"
anyhow = "=1.0.104"
