[package]
name = "binpack_ga"
version = "0.1.0"
edition = "2021"
publish = false

[dependencies]
rand = "0.9"
rayon = "1"
serde_json = "1"
macroquad = "0.4"
