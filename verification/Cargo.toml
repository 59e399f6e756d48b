[package]
name = "forward_proxy"
version = "0.1.0"
edition = "2021"
publish = false

[dependencies]
regex = "0.1"
time = "0.1"
