[package]
name = "xylux_ecs"
version = "0.1.0"
edition = "2021"
publish = false

[dependencies]
bitvec = "*"
glam = "*"
