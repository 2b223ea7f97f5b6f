[package]
name = "ztop"
version = "0.1.0"
edition = "2021"
publish = false

[dependencies]
regex = "*"
clap = { version = "*", features = ["derive"] }
crossterm = "*"
ratatui = "*"
humanize-rs = "*"
nix = { version = "*", features = ["time"] }
glob = "*"
sysctl = "*"
