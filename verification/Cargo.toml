[package]
name = "mct_bot"
version = "0.1.0"
edition = "2021"
publish = false

[dependencies]
rand = "=0.9.5"
file_type = "=0.8.11"
clap = { version = "=4.6.7", features = ["derive"] }
strum_macros = "=0.28.0"
