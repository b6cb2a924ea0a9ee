[package]
name = "rustup"
version = "0.1.0"
edition = "2021"
publish = false

[dependencies]
anyhow = "1"
base-x = "0.2"
twox-hash = "2"
tracing = "0.1"
rayon = "1"
