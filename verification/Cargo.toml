[package]
name = "particle_fluid"
version = "0.1.0"
edition = "2021"
publish = false

[dependencies]
fast_hilbert = "*"
