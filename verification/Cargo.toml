[package]
name = "wikisearch"
version = "0.1.0"
edition = "2021"
publish = false

[dependencies]
reqwest = { version = "*", features = ["blocking"] }
eframe = { version = "*", default-features = false, features = ["glow"] }
