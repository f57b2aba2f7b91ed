[package]
name = "aethergraph-core"
version = "0.1.0"
edition = "2021"
publish = false

[dependencies]
ahash = "0.8"
anyhow = "1"
bytemuck = "1"
crc32fast = "1"
half = "2"
libc = "0.2"
memmap2 = "0.9"
ndarray = "0.16"
parking_lot = "0.12"
rayon = "1"
rustc-hash = "2"
tokio = { version = "1", features = ["rt-multi-thread", "fs", "io-util", "sync"] }
tracing = "0.1"
zstd = "0.13"
