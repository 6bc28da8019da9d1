[package]
name = "okapi"
version = "0.1.0"
edition = "2021"
publish = false

[dependencies]
anyhow = "1"
camino = "1"
camino-tempfile = "1"
clap = { version = "4", features = ["derive"] }
crossterm = "*"
env_logger = "*"
log = "0.4"
range-parser = "*"
rayon = "1"
regex = "1"
shellexpand = "3"
similar = "2"
