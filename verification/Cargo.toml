[package]
name = "packed_histogram"
version = "0.1.0"
edition = "2021"
publish = false

[dependencies]
byteorder = "1"
flate2 = "1"

[dev-dependencies]
rand = { version = "0.8", features = ["small_rng"] }
