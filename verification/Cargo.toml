[package]
name = "kouhia"
version = "0.1.0"
edition = "2021"
publish = false

[dependencies]
anyhow = "1"
chrono = "0.4"
clap = { version = "4", features = ["derive"] }
home = "*"
include_dir = "*"
lazy_static = "1"
rusqlite = { version = "*", features = ["bundled", "functions"] }
rusqlite_migration = { version = "*", features = ["from-directory"] }
rust_decimal = "1"
