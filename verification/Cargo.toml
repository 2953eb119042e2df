[package]
name = "gitsidian"
version = "0.1.0"
edition = "2021"
publish = false

[dependencies]
anyhow = "=1.0.104"
comrak = { version = "=0.44.0", default-features = false }
git2 = { version = "=0.19.0", default-features = false }
log = "=0.4.34"
notify = "=6.1.1"
serde = { version = "=1.0.229", features = ["derive"] }
tantivy = "=0.22.1"
walkdir = "=2.5.0"
