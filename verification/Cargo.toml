[package]
name = "particle_sim"
version = "0.1.0"
edition = "2021"
publish = false

[dependencies]
indicatif = "0.17"
rand = "0.9"
rayon = "1"
