[package]
name = "tmux-leap"
version = "0.1.0"
edition = "2021"
publish = false

[dependencies]
clap = { version = "4", features = ["derive"] }
clap_complete = "4"
dirs = "6"
shellexpand = "3"
tempfile = "3"
