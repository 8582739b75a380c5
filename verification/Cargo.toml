[package]
name = "pmtiles"
version = "0.1.0"
edition = "2021"
publish = false

[dependencies]
flate2 = "*"
serde_json = "*"
memmap2 = "*"
