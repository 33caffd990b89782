[package]
name = "packed_features"
version = "0.1.0"
edition = "2021"
publish = false

[dependencies]
flatgeobuf = { version = "*", default-features = false }
