[package]
name = "advent2023"
version = "0.1.0"
edition = "2021"
publish = false

[dependencies]
anyhow = "1"
clap = { version = "4", features = ["derive"] }
env_logger = "0.10"
itertools = "0.12"
log = "0.4"
num = "0.4"
rayon = "1"
regex = "1"
