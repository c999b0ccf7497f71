[package]
name = "h3tree"
version = "0.1.0"
edition = "2021"

[dependencies]
h3o = "*"
rand = "0.8"
