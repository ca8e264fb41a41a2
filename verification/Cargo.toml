[package]
name = "class_finder"
version = "0.1.0"
edition = "2021"
publish = false

[dependencies]
anyhow = "=1.0.104"
clap = { version = "=4.6.7", features = ["derive"] }
dirs = "=7.0.0"
heed = "=0.22.1"
hex = "=0.4.3"
ignore = "=0.4.33"
memmap2 = "=0.9.12"
rayon = "=1.12.0"
serde = { version = "=1.0.229", features = ["derive"] }
serde_json = "=1.0.154"
sha2 = "=0.10.9"
tree-sitter = "=0.27.1"
tree-sitter-java = "=0.23.5"
zip = { version = "=0.6.6", default-features = false, features = ["deflate"] }
