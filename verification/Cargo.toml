[package]
name = "chewing"
version = "0.1.0"
edition = "2021"
publish = false

[dependencies]
bstr = "1"
der = { version = "=0.7.10", features = ["std"] }
