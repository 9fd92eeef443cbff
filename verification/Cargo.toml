[package]
name = "sprite_codec"
version = "0.1.0"
edition = "2021"
publish = false

[dependencies]
zstd = "0.13"
ruzstd = "*"
encoding_rs = "0.8"
hashbrown = "*"
rayon = "1"
walkdir = "2"
