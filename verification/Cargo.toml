[package]
name = "twolevel"
version = "0.1.0"
edition = "2021"
publish = false

[dependencies]
getset = "0.1"
tspf = "*"
