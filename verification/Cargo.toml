[package]
name = "generative_art"
version = "0.1.0"
edition = "2021"
publish = false

[dependencies]
clap = { version = "4", features = ["derive"] }
itertools = "0.10"
nannou = "0.18"
rand = "0.8"
splines = { version = "4", features = ["impl-glam"] }
