[package]
name = "bazelrc_lsp"
version = "0.1.0"
edition = "2021"
publish = false

[dependencies]
prost = "*"
lz4_flex = "*"
clap = { version = "*", features = ["derive"] }
walkdir = "*"
