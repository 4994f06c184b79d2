[package]
name = "rustscan"
version = "0.1.0"
edition = "2021"
publish = false

[dependencies]
rand = "0.9"
clap = { version = "4", features = ["derive"] }
serde = "1"
serde_derive = "1"
toml = "0.8"
dirs = "5"
