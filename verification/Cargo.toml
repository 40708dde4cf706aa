[package]
name = "voronoi_swim"
version = "0.1.0"
edition = "2021"
publish = false

[dependencies]
priority-queue = "*"
clap = { version = "*", features = ["derive"] }
serde = { version = "*", features = ["derive"] }
serde_yaml = "*"
anyhow = "*"
hilbert = "*"
