[package]
name = "transcript_align"
version = "0.1.0"
edition = "2021"
publish = false

[dependencies]
clap = { version = "4", features = ["derive"] }
serde = { version = "1", features = ["derive"] }
serde_json = "1"
vibrato = "0.5"
ndarray = "*"
ort = "=2.0.0-rc.15"
