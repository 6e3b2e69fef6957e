[package]
name = "zilean"
version = "0.1.0"
edition = "2021"
publish = false

[dependencies]
rand = "*"
redis = "*"
serde_json = "*"
