[package]
name = "gamesolver"
version = "0.1.0"
edition = "2021"
publish = false

[dependencies]
smallvec = "1"
fastrand = "2"
serde = { version = "1", features = ["derive"] }
serde_json = "1"
clap = { version = "3.2", features = ["derive"] }
