[package]
name = "bytes_lit"
version = "0.1.0"
edition = "2021"
publish = false

[dependencies]
num-bigint = "*"
proc-macro2 = "1"
quote = "1"
syn = "2"
