[package]
name = "bitmaze"
version = "0.1.0"
edition = "2021"
publish = false

[dependencies]
minifb = "0.28"
