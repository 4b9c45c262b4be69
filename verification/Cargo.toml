[package]
name = "tmglel"
version = "0.1.0"
edition = "2021"
publish = false

[dependencies]
anyhow = "*"
indoc = "*"
serde_json = "*"
toml = "*"
