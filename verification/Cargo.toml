[package]
name = "image_dedup"
version = "0.1.0"
edition = "2021"
publish = false

[dependencies]
hex = "0.4"
image = "*"
image_hasher = "*"
parking_lot = "0.12"
rayon = "1"
