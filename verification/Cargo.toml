[package]
name = "swifty_artifacts"
version = "0.1.0"
edition = "2021"
publish = false

[dependencies]
md5 = "0.8"
sha1 = "0.10"
hex = "0.4"
serde = { version = "1", features = ["derive"] }
serde_json = "1"
thiserror = "1"
anyhow = "1"
clap = { version = "4", features = ["derive"] }
indicatif = "0.17"
rayon = "1"
walkdir = "2"
