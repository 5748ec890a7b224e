[package]
name = "depgraph"
version = "0.1.0"
edition = "2021"
publish = false

[dependencies]
clap = { version = "*", features = ["derive"] }
swc_common = "*"
swc_ecma_ast = "*"
swc_ecma_parser = "*"
