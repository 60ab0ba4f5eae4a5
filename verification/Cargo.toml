[package]
name = "indextreemap"
version = "0.1.0"
edition = "2021"
publish = false

[dev-dependencies]
sha2 = "0.10"
hex = "0.4"
