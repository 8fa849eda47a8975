[package]
name = "promptgen"
version = "0.1.0"
edition = "2021"
publish = false

[dependencies]
ignore = "*"
tiktoken-rs = "*"
