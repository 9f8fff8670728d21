[package]
name = "letterboxsolver"
version = "0.1.0"
edition = "2021"
publish = false

[dependencies]
rayon = "1"
csv = "1"
reqwest = { version = "0.12", features = ["blocking"] }
slint = { version = "1", default-features = false, features = ["std", "compat-1-2"] }
