[package]
name = "paggo"
version = "0.1.0"
edition = "2021"
publish = false

[dependencies]
dashmap = "*"
tokio = { version = "*", features = ["full"] }
clap = { version = "*", features = ["derive"] }
