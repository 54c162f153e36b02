[package]
name = "java_annotator"
version = "0.1.0"
edition = "2021"
publish = false

[dependencies]
anyhow = "1"
clap = { version = "4", features = ["derive"] }
tree-sitter = "*"
tree-sitter-java = "*"
