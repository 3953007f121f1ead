[package]
name = "sourcegen"
version = "0.1.0"
edition = "2021"
publish = false

[dependencies]
xshell = "0.1"
