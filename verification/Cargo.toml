[package]
name = "cpu_cli_controller"
version = "0.1.0"
edition = "2021"

[dependencies]
itertools = "*"
clap = { version = "*", features = ["derive"] }
