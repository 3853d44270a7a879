[package]
name = "ddcrate"
version = "0.1.0"
edition = "2021"
publish = false

[dependencies]
anyhow = "1"
chrono = "0.4"
clap = { version = "4", features = ["derive"] }
csv = "1"
once-cell-regex = "*"
ordered-float = "*"
serde = { version = "1", features = ["derive"] }
toml = "*"
walkdir = "2"
