[package]
name = "cpumon"
version = "0.1.0"
edition = "2021"
publish = false

[dependencies]
clap = { version = "4", features = ["derive"] }
crossterm = "0.28"
glob = "0.3"
ratatui = "0.29"
