[package]
name = "wgsl_bindings"
version = "0.1.0"
edition = "2021"
publish = false

[dependencies]
anyhow = "1"
clap = { version = "4", features = ["derive"] }
walkdir = "2"

[dev-dependencies]
winnow = "0.5"
