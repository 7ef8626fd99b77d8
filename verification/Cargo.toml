[package]
name = "mimetree"
version = "0.1.0"
edition = "2021"
publish = false

[dependencies]
petgraph = "*"
once_cell = "*"
