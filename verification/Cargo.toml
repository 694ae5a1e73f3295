[package]
name = "color_reducer"
version = "0.1.0"
edition = "2021"
publish = false

[dependencies]
image = { version = "0.25", default-features = false }
palette = { version = "0.7", default-features = false, features = ["std"] }
rayon = "1"
