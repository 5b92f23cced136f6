[package]
name = "pos_tagger"
version = "0.1.0"
edition = "2021"
publish = false

[dependencies]
bincode = "1"
clap = { version = "4", features = ["derive"] }
indicatif = "0.17"
num_cpus = "1"
serde = { version = "1", features = ["derive"] }
