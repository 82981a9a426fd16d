[package]
name = "quinn"
version = "0.1.0"
edition = "2021"
publish = false

[dependencies]
bytes = "1"
quinn-proto = { version = "0.7", default-features = false }
