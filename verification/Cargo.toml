[package]
name = "sst_builder"
version = "0.1.0"
edition = "2021"
publish = false

[dependencies]
crc32c = "=0.6.8"
farmhash = "=1.1.5"
xorf = { version = "=0.13.0", default-features = false, features = ["binary-fuse"] }
