[package]
name = "keshet"
version = "0.1.0"
edition = "2021"
publish = false

[dependencies]
anyhow = "1"
clap = { version = "4", features = ["derive"] }
colored = "*"
crossterm = "*"
indicatif = "*"
rayon = "1"
rug = { version = "1", default-features = false, features = ["float"] }
