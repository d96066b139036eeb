[package]
name = "rust-ingest"
version = "0.1.0"
edition = "2021"
publish = false

[dependencies]
anyhow = "1"
clap = { version = "4", features = ["derive"] }
ignore = "0.4"

[dev-dependencies]
tempfile = "3"
