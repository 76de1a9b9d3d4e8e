[package]
name = "merkle_path_auth"
version = "0.1.0"
edition = "2021"
publish = false

[dependencies]
franklin-crypto = "=0.1.0"
rand = "=0.4.6"
