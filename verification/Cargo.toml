[package]
name = "sorts_tui"
version = "0.1.0"
edition = "2021"
publish = false

[dependencies]
rand = "0.8"
ratatui = "0.29"
clap = { version = "4", features = ["derive"] }
strum_macros = "0.26"
