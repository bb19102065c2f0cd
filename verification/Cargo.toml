[package]
name = "nanocov"
version = "0.1.0"
edition = "2021"
publish = false

[dependencies]
clap = { version = "*", features = ["derive"] }
noodles-bam = "*"
noodles-core = "*"
noodles-sam = "*"
rayon = "*"
chrono = "*"
