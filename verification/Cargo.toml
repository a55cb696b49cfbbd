[package]
name = "overmask"
version = "0.1.0"
edition = "2021"
publish = false

[dependencies]
block-utils = "*"
clap = { version = "*", features = ["derive"] }
ctrlc = "*"
vblk = "*"
