[package]
name = "water_sort"
version = "0.1.0"
edition = "2021"
publish = false

[dependencies]
itertools = "*"
serde = { version = "1", features = ["derive"] }
serde_json = "1"
clap = { version = "4", features = ["derive"] }
