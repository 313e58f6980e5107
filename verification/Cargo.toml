[package]
name = "pathfinder"
version = "0.1.0"
edition = "2021"
publish = false

[dependencies]
serde = { version = "1", features = ["derive"] }
ciborium = "*"
flate2 = "*"
clap = { version = "4", features = ["derive"] }
expect-exit = "*"
