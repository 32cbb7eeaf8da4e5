[package]
name = "leafedit"
version = "0.1.0"
edition = "2021"
publish = false

[dependencies]
lopdf = "0.26"
chrono = "0.4"
clap = { version = "3", features = ["derive"] }
ron = "0.7"
serde = { version = "1", features = ["derive"] }
