[package]
name = "kosa"
version = "0.0.1"
edition = "2021"
publish = false

[dependencies]
frozen-core = "=0.0.32"

[dev-dependencies]
tempfile = "=3.27.0"
