[package]
name = "gd"
version = "0.1.0"
edition = "2021"
publish = false

[dependencies]
similar = "2"
nucleo-matcher = "0.3"
unicode-width = "0.2"
crossterm = "0.28"
ratatui = "0.29"
anyhow = "1"
