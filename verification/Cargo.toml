[package]
name = "duperr"
version = "0.1.0"
edition = "2021"
publish = false

[dependencies]
anyhow = "1"
atty = "0.2"
blake3 = { version = "1", features = ["pure"] }
clap = { version = "4", features = ["derive"] }
colored = "*"
csv = "1"
dialoguer = { version = "*", default-features = false }
env_logger = "*"
globset = "0.4"
hex = "0.4"
humansize = "2"
indicatif = "*"
log = "0.4"
memmap2 = "0.9"
rayon = "1"
serde = { version = "1", features = ["derive"] }
serde_json = "1"
thiserror = "*"
walkdir = "2"

[dev-dependencies]
tempfile = "3"
rand = "*"
