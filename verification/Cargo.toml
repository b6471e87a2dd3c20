[package]
name = "nbody"
version = "0.1.0"
edition = "2021"
publish = false

[dependencies]
clap = "2"
rand = "0.7"
rayon = "1"
