[package]
name = "libpgs"
version = "0.6.0"
edition = "2021"
publish = false

[dependencies]
flate2 = "1"
