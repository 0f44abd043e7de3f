[package]
name = "auto_args"
version = "0.1.0"
edition = "2021"
publish = false

[dependencies]
meval = "*"
