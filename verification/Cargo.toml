[package]
name = "nvcap_calculator"
version = "0.1.0"
edition = "2021"
publish = false

[dependencies]
chrono = { version = "*", default-features = false, features = ["clock"] }
colored = "*"
ctrlc = "*"
