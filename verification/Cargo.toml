[package]
name = "buildy"
version = "0.1.0"
edition = "2021"
publish = false

[dependencies]
rust-crypto = "0.2"
clap = "2"
crossbeam = "0.8"
duct = "0.13"
notify = "4"
serde = { version = "1", features = ["derive"] }
serde_yaml = "0.9"
bincode = "1"
walkdir = "2"
