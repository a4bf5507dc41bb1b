[package]
name = "zipin"
version = "0.1.0"
edition = "2021"
publish = false

[dependencies]
unicode-width = "0.2"
ratatui = "0.29"
arboard = "3"
dirs = "6"
anyhow = "1"
include_dir = "0.7"
