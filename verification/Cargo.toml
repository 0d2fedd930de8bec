[package]
name = "fast_csv"
version = "0.1.0"
edition = "2021"
publish = false

[dependencies]
csv = "1"
rayon = "1"
zip = { version = "2", default-features = false, features = ["deflate"] }
