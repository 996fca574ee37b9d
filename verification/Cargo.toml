[package]
name = "knowledge_index"
version = "0.1.0"
edition = "2021"
publish = false

[dependencies]
clap = { version = "4", features = ["derive"] }
ratatui = "0.29"
