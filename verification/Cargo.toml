[package]
name = "navidrome_import"
version = "0.1.0"
edition = "2021"
publish = false

[dependencies]
anyhow = "1"
clap = { version = "4", features = ["derive", "env"] }
csv = "1"
lofty = "0.22"
pathdiff = "0.2"
rapidfuzz = "0.5"
regex = "1"
serde = { version = "1", features = ["derive"] }
serde_json = "1"
unicode-normalization = "0.1"
walkdir = "2"
zip = { version = "2", default-features = false, features = ["deflate"] }
