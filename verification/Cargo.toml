[package]
name = "json-flat-parser"
version = "0.1.0"
edition = "2021"

[dependencies]
bumpalo = "3"
simdutf8 = "0.1"
