[package]
name = "columnar_ipc"
version = "0.1.0"
edition = "2021"
publish = false

[dependencies]
ahash = "*"
lz4_flex = "*"
zstd = "*"
