[package]
name = "elias_fano"
version = "0.1.0"
edition = "2021"

[dev-dependencies]
flate2 = "1"
