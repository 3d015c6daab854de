[package]
name = "sample_library"
version = "0.1.0"
edition = "2021"
publish = false

[dependencies]
anyhow = "1"
chrono = "0.4"
crossbeam-channel = "0.5"
rayon = "1"
rodio = { version = "0.19", default-features = false }
rusqlite = { version = "0.31", features = ["bundled"] }
rustysynth = "1"
serde = { version = "1", features = ["derive"] }
symphonia = { version = "0.5", features = ["all"] }
walkdir = "2"
