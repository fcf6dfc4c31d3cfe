[package]
name = "petri_reach"
version = "0.1.0"
edition = "2021"
publish = false

[dependencies]
ahash = "0.8"
derive_more = { version = "1", features = ["display"] }
