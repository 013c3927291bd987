[package]
name = "comparator_layers"
version = "0.1.0"
edition = "2021"
publish = false

[dependencies]
lru = "*"

[dev-dependencies]
itertools = "*"
