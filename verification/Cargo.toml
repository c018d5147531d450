[package]
name = "newton_core"
version = "0.1.0"
edition = "2021"
publish = false

[dependencies]
num-complex = "0.4"
palette = "0.7"
rand = "0.8"
