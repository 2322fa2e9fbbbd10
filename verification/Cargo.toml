[package]
name = "hprof"
version = "0.1.0"
edition = "2021"
publish = false

[dependencies]
ahash = "0.8"
memchr = "2"
memmap2 = "0.9"
rayon = "1"
regex = "1"
serde = "1"
serde_derive = "1"
serde_json = "1"
thiserror = "2"
