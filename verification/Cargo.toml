[package]
name = "puzzle_search"
version = "0.1.0"
edition = "2021"
publish = false

[dependencies]
rand = "0.8"
rand_pcg = "0.3"
dialoguer = "0.11"
