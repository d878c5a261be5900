[package]
name = "lad"
version = "0.1.0"
edition = "2021"
publish = false

[dependencies]
polars = { version = "=0.55.2", default-features = false }
rayon = "=1.12.0"
notify-rust = "=4.18.2"
