[package]
name = "sdtools"
version = "0.1.0"
edition = "2021"
publish = false

[dependencies]
clap = "=2.34.0"
indicatif = { version = "=0.18.6", features = ["rayon"] }
rayon = "=1.12.0"

[dev-dependencies]
ordered-float = "=5.5.0"
