[package]
name = "bench-mdbx-shard"
version = "0.1.0"
edition = "2021"
publish = false

[dependencies]
roaring = "0.11"
rand = "0.8"

[dev-dependencies]
tempfile = "3"
