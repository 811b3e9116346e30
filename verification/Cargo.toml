[package]
name = "oh_bugs"
version = "0.1.0"
edition = "2021"
publish = false

[dependencies]
anyhow = "1"
crossterm = "*"
dirs = "*"
libc = "*"
nix = { version = "*", features = ["term", "fs", "process"] }
regex = "1"
serde = { version = "1", features = ["derive"] }
toml = "*"
