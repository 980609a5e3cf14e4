[package]
name = "control"
version = "0.1.0"
edition = "2021"
publish = false

[dependencies]
deepmind-midi = "*"
deepmind-patches = "*"
toml = "*"
