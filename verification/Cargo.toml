[package]
name = "trie_rs"
version = "0.4.2"
edition = "2021"
publish = false

[dependencies]
louds-rs = "*"
serde = { version = "1", features = ["derive"] }
