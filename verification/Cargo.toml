[package]
name = "fix_cs_indent"
version = "0.1.0"
edition = "2021"
publish = false

[dependencies]
serde_json = "1"
tree-sitter = "*"
tree-sitter-c-sharp = "*"
