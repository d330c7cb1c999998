[package]
name = "forge_meta_link"
version = "0.1.0"
edition = "2021"
publish = false

[dependencies]
serde_json = "*"
serde_yaml = "*"
flate2 = "*"
sha2 = "*"
image = "*"
walkdir = "*"
