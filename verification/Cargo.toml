[package]
name = "todoln"
version = "0.1.0"
edition = "2021"
publish = false

[dependencies]
clap = { version = "*", features = ["derive"] }
crossterm = "*"
dirs = "*"
rusqlite = { version = "*", features = ["bundled"] }
