[package]
name = "chunker"
version = "0.1.0"
edition = "2021"
publish = false

[dependencies]
anyhow = "1"
scraper = "*"
serde = "1"
serde_json = "1"
unicode-segmentation = "1"
