[package]
name = "beaver"
version = "0.1.0"
edition = "2021"
publish = false

[dependencies]
threadpool = "*"
serde_json = "*"
itertools = "*"
