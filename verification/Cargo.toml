[package]
name = "banking_jitter"
version = "0.1.0"
edition = "2021"
publish = false

[dependencies]
tikv-jemallocator = "0.6"
