[package]
name = "hash_parity"
version = "0.1.0"
edition = "2021"
publish = false

[dependencies]
zstd = "*"
md5 = "*"
serde = { version = "1", features = ["derive"] }
serde_json = "1"
walkdir = "2"
libtest-mimic = "*"
