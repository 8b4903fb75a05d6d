[package]
name = "segment_search"
version = "0.1.0"
edition = "2021"
publish = false

[dependencies]
fst = { version = "0.3", default-features = false }
crossbeam = "0.8"
scoped-pool = "1.0"
