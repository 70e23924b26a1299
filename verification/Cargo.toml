[package]
name = "tile_directory"
version = "0.1.0"
edition = "2021"
publish = false

[dependencies]
bytes = "*"

[dev-dependencies]
varint-rs = "*"
