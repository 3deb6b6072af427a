[package]
name = "verbfreq"
version = "0.1.0"
edition = "2021"
publish = false

[dependencies]
regex = "*"
serde = { version = "*", features = ["derive"] }
serde_json = "*"
anyhow = "*"
rayon = "*"
indicatif = "*"
mecab = "*"
mimalloc = "*"
