[package]
name = "struct_compression_analyzer"
version = "0.1.0"
edition = "2021"
publish = false

[dependencies]
serde = { version = "1", features = ["derive"] }
serde_yaml = "0.9"
indexmap = { version = "2", features = ["serde"] }
thiserror = "2"
derive_more = { version = "1", features = ["from_str"] }
ahash = "0.8"
rustc-hash = "2"
rayon = "1"
zstd = "0.13"
lossless-transform-utils = "*"
branches = "*"
plotters = "0.3"
csv = "1"
argh = "0.1"
anyhow = "1"
walkdir = "2"
mimalloc = "0.1"

[dev-dependencies]
bitstream-io = "2"
