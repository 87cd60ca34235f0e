[package]
name = "zero_tokenizer"
version = "0.1.0"
edition = "2021"
publish = false

[dependencies]
ahash = "*"
compact_str = "*"
dary_heap = "*"
fancy-regex = "*"
log = "*"
rayon = "*"
serde_json = "*"
thiserror = "*"
