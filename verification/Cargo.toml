[package]
name = "ink"
version = "0.1.0"
edition = "2021"
publish = false

[dependencies]
gray_matter = "*"
globset = "*"
dirs = "*"
tantivy = "*"
clap = { version = "*", features = ["derive"] }
serde = { version = "*", features = ["derive"] }
serde_json = "*"
config = "*"
chrono = "*"
minijinja = "*"
walkdir = "*"
lazy_static = "*"
scraper = "*"
reqwest = { version = "*", default-features = false, features = ["blocking"] }
