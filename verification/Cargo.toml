[package]
name = "truv_compression"
version = "0.1.0"
edition = "2021"
publish = false

[dependencies]
crc32fast = "1"
rayon = "1"
clap = { version = "4", features = ["derive"] }
