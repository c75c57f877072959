[package]
name = "mumbler"
version = "0.1.0"
edition = "2021"
publish = false

[dependencies]
anyhow = "1"
slab = "0.4"
web-sys = "0.3"
