[package]
name = "rbase"
version = "0.1.0"
edition = "2021"
publish = false

[dependencies]
clap = { version = "=4.6.7", features = ["derive"] }
indicatif = { version = "=0.18.6", features = ["rayon"] }
memmap2 = "=0.9.11"
rayon = "=1.12.0"
