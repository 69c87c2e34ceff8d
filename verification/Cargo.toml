[package]
name = "faces"
version = "0.1.0"
edition = "2021"
publish = false

[dependencies]
jiff = "0.2"
