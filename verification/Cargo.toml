[package]
name = "mazegen"
version = "0.1.0"
edition = "2021"
publish = false

[dependencies]
partitions = "*"
rand = "0.8"
tiny-skia = "*"
nom = "*"
