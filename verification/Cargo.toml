[package]
name = "gaia_ir"
version = "0.1.0"
edition = "2021"
publish = false

[dependencies]
ascii = "1"
fast-math = "0.1"
serde = { version = "1", features = ["derive"] }
serde_json = "1"
