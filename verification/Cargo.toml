[package]
name = "atree_core"
version = "0.1.0"
edition = "2021"
publish = false

[dev-dependencies]
a-tree = "=0.5.1"
