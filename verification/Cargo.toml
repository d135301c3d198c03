[package]
name = "knapsack_problem"
version = "0.1.0"
edition = "2021"
publish = false

[dependencies]
clap = { version = "*", features = ["derive"] }
rust_decimal = "*"
serde = { version = "*", features = ["derive"] }
serde_json = "*"
