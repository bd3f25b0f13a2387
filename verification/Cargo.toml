[package]
name = "range_tree_rs"
version = "0.1.0"
edition = "2021"
publish = false

[dependencies]
embed-collections = { version = "=0.13.0", default-features = false, features = ["std", "btree"] }
