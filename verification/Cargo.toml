[package]
name = "json_parser"
version = "0.1.0"
edition = "2021"

[dependencies]
indexmap = "2"
clap = { version = "4", features = ["derive"] }
