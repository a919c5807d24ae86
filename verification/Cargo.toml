[package]
name = "comment_rot"
version = "0.1.0"
edition = "2021"
publish = false

[dependencies]
anyhow = "*"
blake3 = "*"
clap = { version = "*", features = ["derive"] }
console = "*"
dialoguer = "*"
ignore = "*"
serde = { version = "*", features = ["derive"] }
serde_json = "*"
similar = "*"
tree-sitter = "*"
tree-sitter-rust = "*"
