[package]
name = "relearn"
version = "0.1.0"
edition = "2021"
publish = false

[dependencies]
clap = { version = "4", features = ["derive"] }
fastrand = "2"
rmp-serde = "1"
serde = { version = "1", features = ["derive"] }
