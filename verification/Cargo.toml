[package]
name = "ad2fsm"
version = "0.1.0"
edition = "2021"
publish = false

[dependencies]
anyhow = "*"
regex = "*"
tree-sitter = "*"
