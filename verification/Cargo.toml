[package]
name = "comprez"
version = "0.1.0"
edition = "2021"
publish = false

[dependencies]
lz4_flex = "*"

[dev-dependencies]
rand = "0.8"
