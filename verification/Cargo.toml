[package]
name = "dirsnap"
version = "0.1.0"
edition = "2021"
publish = false

[dependencies]
anyhow = "*"
blake3 = "*"
clap = { version = "*", features = ["derive"] }
filetime = "*"
globset = "*"
rayon = "*"
walkdir = "*"
xxhash-rust = { version = "*", features = ["xxh3"] }
