[package]
name = "flatfile"
version = "0.1.0"
edition = "2021"
publish = false

[dependencies]
adler32 = "1"
lz4 = "1"
zstd = "0.13"
memmap = "0.7"
regex = "1"
tiny-keccak = "1"
