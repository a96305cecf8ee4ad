[package]
name = "tread"
version = "0.1.0"
edition = "2021"
publish = false

[dependencies]
unicode-width = "0.2"
regex = "1"
encoding_rs = "0.8"
serde = { version = "1", features = ["derive"] }
serde_json = "1"
toml = "0.8"
dirs = "6"
chrono = { version = "0.4", default-features = false, features = ["clock"] }
rand = "0.8"
ratatui = "0.29"
crossterm = "0.28"
clap = { version = "4", features = ["derive"] }
epub = "*"
mobi = "*"
pdf-extract = "*"
