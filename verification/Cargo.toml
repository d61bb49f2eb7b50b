[package]
name = "bismuth"
version = "0.1.0"
edition = "2021"
publish = false

[dependencies]
anyhow = "1"
dbg-pls = { version = "0.4", features = ["derive", "pretty"] }
tree-sitter = "0.20"
