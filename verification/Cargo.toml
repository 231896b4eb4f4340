[package]
name = "jetro-experimental"
version = "0.1.0"
edition = "2021"
publish = false

[dependencies]
aho-corasick = "1"
croaring = "2"
fast-float = "0.2"
memchr = "2"
memmap2 = "0.9"
rayon = "1"
simd-json = "*"
simdutf8 = "0.1"
