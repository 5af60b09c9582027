[package]
name = "cormine"
version = "0.1.0"
edition = "2021"
publish = false

[dependencies]
ndarray = "*"
bit_field = "*"
argh = "*"
anyhow = "*"
noise = "*"
rand = "*"
fontdue = "*"
glam = "*"

[dev-dependencies]
leb128 = "*"
