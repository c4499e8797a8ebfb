[package]
name = "cargo-crate-split"
version = "0.1.0"
edition = "2021"
publish = false

[dependencies]
anyhow = "=1.0.104"
clap = { version = "=4.6.7", features = ["derive"] }
petgraph = "=0.8.3"
proc-macro2 = { version = "=1.0.107", features = ["span-locations"] }
serde = { version = "=1.0.229", features = ["derive"] }
serde_json = "=1.0.154"
syn = { version = "=2.0.119", features = ["full", "visit"] }
walkdir = "=2.5.0"
