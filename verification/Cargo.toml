[package]
name = "rinkaku"
version = "0.1.0"
edition = "2021"
publish = false

[dependencies]
aho-corasick = "=1.1.5"
unicode-width = "=0.2.3"
tree-sitter = "=0.27.1"
tree-sitter-md = "=0.5.4"
tree-sitter-php = "=0.25.1"
tree-sitter-typescript = "=0.23.2"
serde = { version = "=1.0.229", features = ["derive"] }
serde_json = "=1.0.154"
anyhow = "=1.0.104"
