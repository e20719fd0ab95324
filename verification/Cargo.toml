[package]
name = "load_tester"
version = "0.1.0"
edition = "2021"
publish = false

[dependencies]
clap = { version = "3.1", features = ["derive"] }
reqwest = { version = "0.11", default-features = false, features = ["blocking"] }
textplots = "0.8"
