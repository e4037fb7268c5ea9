[package]
name = "microkimi"
version = "0.1.0"
edition = "2021"
publish = false

[dependencies]
unicode-normalization = "=0.1.26"
unicode-properties = "=0.1.5"
serde = "1"
serde_json = "=1.0.154"
