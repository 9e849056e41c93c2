[package]
name = "pdf_cache"
version = "0.1.0"
edition = "2021"
publish = false

[dependencies]
anyhow = "=1.0.104"
lopdf = { version = "=0.42.0", default-features = false }
memmap2 = "=0.9.11"
papaya = "=0.2.5"
pdf-extract = "=0.12.1"
regex = "=1.13.1"
