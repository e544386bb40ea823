[package]
name = "dlc_sled_storage_provider"
version = "0.1.0"
edition = "2021"
publish = false

[dependencies]
sled = "*"
