[package]
name = "token_ring"
version = "0.1.0"
edition = "2021"
publish = false

[dependencies]
tokio = { version = "*", features = ["full"] }
tokio-util = { version = "*", features = ["codec"] }
futures = "*"
clap = { version = "*", features = ["derive"] }
color-print = "*"
terminal_size = "*"
