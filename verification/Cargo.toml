[package]
name = "concurrent_bst_map"
version = "0.1.0"
edition = "2021"
publish = false

[dependencies]

[dev-dependencies]
rand = "0.8"
tokio = { version = "1", features = ["rt-multi-thread"] }
