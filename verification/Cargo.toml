[package]
name = "sarnaut"
version = "0.1.0"
edition = "2021"
publish = false

[dependencies]
blake3 = "1"
anyhow = "1"
clap = { version = "4", features = ["derive"] }
serde = { version = "1", features = ["derive"] }
serde_json = "1"
serde_yaml = "0.9"
roxmltree = "*"
walkdir = "2"
tempfile = "3"
rayon = "1"
indicatif = "*"
chrono = "0.4"
jsonschema = { version = "*", default-features = false }
prost = "*"
