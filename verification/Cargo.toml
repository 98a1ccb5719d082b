[package]
name = "lawgraph"
version = "0.1.0"
edition = "2021"
publish = false

[dependencies]
scraper = "*"
rusqlite = { version = "*", features = ["bundled"] }
clap = { version = "*", features = ["derive"] }
anyhow = "*"
