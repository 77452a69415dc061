[package]
name = "cs_01"
version = "0.1.0"
edition = "2021"
publish = false

[dependencies]
anyhow = "1"
clap = { version = "4", features = ["derive"] }
colored = "2"
serde_json = { version = "1", features = ["preserve_order"] }

[dev-dependencies]
tempfile = "3"
