[package]
name = "order_matching"
version = "0.1.0"
edition = "2021"
publish = false

[dependencies]
refpool = "*"
core_affinity = "*"
