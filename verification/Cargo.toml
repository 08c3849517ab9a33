[package]
name = "rockstore"
version = "0.1.0"
edition = "2021"
publish = false

[dependencies]
rocksdb = "*"
serde = "*"
serde_json = "*"
rmp-serde = "*"
jsonpath-rust = "*"
thiserror = "*"
