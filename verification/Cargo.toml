[package]
name = "wide_int"
version = "0.1.0"
edition = "2021"
publish = false

[dependencies]
specialized-div-rem = "1"
