[package]
name = "litcodec"
version = "0.1.0"
edition = "2021"
publish = false

[dependencies]
proc-macro2 = "0.2"
quote = "0.4"
