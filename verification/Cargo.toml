[package]
name = "dungeon"
version = "0.1.0"
edition = "2021"
publish = false

[dependencies]
fasthash = "*"
tokio = { version = "1", features = ["full"] }
clap = { version = "4", features = ["derive"] }
