[package]
name = "twine-data"
version = "0.1.0"
edition = "2021"
publish = false

[dependencies]
anyhow = "1"
clap = { version = "4", features = ["derive"] }
hex = "0.4"

[dev-dependencies]
leb128 = "0.2"
