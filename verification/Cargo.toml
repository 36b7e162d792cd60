[package]
name = "swmr-epoch"
version = "0.1.0"
edition = "2021"
publish = false

[dependencies]
antidote = "1.0"
loom = "0.7"
