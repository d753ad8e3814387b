[package]
name = "jfmt"
version = "0.1.0"
edition = "2021"
publish = false

[dependencies]
clap = { version = "3", features = ["derive"] }

[dev-dependencies]
serde_json = "1"
serde-transcode = "1"
