[package]
name = "recursor"
version = "0.1.0"
edition = "2021"
publish = false

[dependencies]
packed_struct = "0.10"
