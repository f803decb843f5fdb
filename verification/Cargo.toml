[package]
name = "safetar"
version = "0.1.0"
edition = "2021"
publish = false

[dependencies]
anyhow = "*"
clap = { version = "*", features = ["derive"] }
flate2 = "*"
globset = "*"
hex = "*"
indicatif = "*"
rayon = "*"
sha2 = "*"
tar = "*"
walkdir = "*"
xz2 = "*"
zstd = "*"
