[package]
name = "taskfile"
version = "0.1.0"
edition = "2021"
publish = false

[dependencies]
anyhow = "1"
clap = { version = "4", features = ["derive"] }
notify = "*"
uuid = { version = "1", features = ["v4"] }
