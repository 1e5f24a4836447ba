[package]
name = "onset_matcher"
version = "0.1.0"
edition = "2021"
publish = false

[dependencies]
midly = "0.5"
symphonia = { version = "0.5", features = ["mp3"] }
clap = { version = "4", features = ["derive"] }
anyhow = "1"
