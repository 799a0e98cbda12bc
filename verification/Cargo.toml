[package]
name = "file_tree"
version = "0.1.0"
edition = "2021"
publish = false

[dependencies]
tempdir = "0.3"
uuid = { version = "*", features = ["v4"] }
