[package]
name = "prime_walk"
version = "0.1.0"
edition = "2021"
publish = false

[dependencies]
reikna = "*"
image = "*"
imageproc = "*"
