[package]
name = "y2025"
version = "0.1.0"
edition = "2021"
publish = false

[dependencies]
itertools = "0.14"
num = "0.4"
regex = "1"
