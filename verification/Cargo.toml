[package]
name = "jigsaw_doubler"
version = "0.1.0"
edition = "2021"
publish = false

[dependencies]
varisat = "0.2"
itertools = "*"
humantime = "2"
