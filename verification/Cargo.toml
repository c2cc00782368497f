[package]
name = "lattice"
version = "0.1.0"
edition = "2021"
publish = false

[dependencies]
regex = "=1.13.1"
clap = { version = "=4.6.7", features = ["derive"] }
pulldown-cmark = { version = "*", default-features = false }
