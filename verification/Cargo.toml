[package]
name = "wordle"
version = "0.1.0"
edition = "2021"
publish = false

[dependencies]
ansi_term = "0.12"
rand = "0.8"
rocket = "0.5"
serde = { version = "1", features = ["derive"] }
