[package]
name = "brainfuck_search"
version = "0.1.0"
edition = "2021"
publish = false

[dependencies]
ahash = "0.8"
clap = { version = "4", features = ["derive"] }
ratatui = "0.29"
tui-scrollview = "0.5"
