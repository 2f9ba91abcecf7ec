[package]
name = "prompto"
version = "0.1.0"
edition = "2021"
publish = false

[dependencies]
rust-stemmers = "=1.2.0"
unicode-segmentation = "=1.13.3"
serde = { version = "=1.0.229", features = ["derive"] }
serde_json = "=1.0.154"
bincode = "=1.3.3"
ignore = "=0.4.34"
tree-sitter = "=0.22.6"
tree-sitter-rust = "=0.21.2"
tree-sitter-javascript = "=0.21.4"
tree-sitter-python = "=0.21.0"
tree-sitter-typescript = "=0.21.2"
tantivy = "=0.22.1"
usearch = "=2.24.0"
candle-core = "0.9"
candle-nn = "0.9"
candle-transformers = "0.9"
tokenizers = "=0.19.1"
hf-hub = "=0.3.2"
reqwest = { version = "=0.12.28", features = ["json"] }
tokio = { version = "=1.54.1", features = ["rt-multi-thread"] }
