[package]
name = "seqtrie"
version = "0.1.0"
edition = "2021"
publish = false

[dependencies]
fnv = "1"
regex = "1"
unicode-normalization = "0.1"
