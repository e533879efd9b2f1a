[package]
name = "ntre-demo-dumper"
version = "0.1.0"
edition = "2021"
publish = false

[dependencies]
anyhow = "1"
clap = { version = "4", features = ["derive"] }
regex = "1"
rusqlite = { version = "*", features = ["bundled"] }
tf-demo-parser = "*"
