[package]
name = "sigil-s3"
version = "0.3.0"
edition = "2021"
publish = false

[dependencies]
wit-bindgen = "*"
