[package]
name = "joaat_reverser"
version = "0.1.0"
edition = "2021"
publish = false

[dependencies]
base_custom = "*"
clap = "2"
rayon = "1"
