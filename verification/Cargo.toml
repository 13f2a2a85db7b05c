[package]
name = "symgraph"
version = "0.1.0"
edition = "2021"
publish = false

[dependencies]
anyhow = "1"
libloading = "*"
rusqlite = { version = "*", features = ["bundled"] }
