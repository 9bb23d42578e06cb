[package]
name = "color_bruteforcer"
version = "1.1.0"
edition = "2021"
publish = false

[dependencies]
clap = "2"
palette = "0.5"
pbr = "1"
promptly = "0.1"
rayon = "1"
regex = "1"
