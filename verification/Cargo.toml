[package]
name = "huub"
version = "0.1.0"
edition = "2021"
publish = false

[dependencies]
rustc-hash = "*"
pindakaas = { version = "*", default-features = false }
tracing = "*"

[dev-dependencies]
itertools = "*"
