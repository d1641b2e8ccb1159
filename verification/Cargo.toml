[package]
name = "visterm"
version = "0.1.0"
edition = "2021"
publish = false

[dependencies]
image = "0.24"
crossterm = "0.27"
rayon = "1"
