[package]
name = "fish_session"
version = "0.1.3"
edition = "2021"
publish = false

[dependencies]
anyhow = "1"
crossterm = "0.28"
libc = "0.2"
names = { version = "0.14", default-features = false }
nix = { version = "0.29", features = ["poll", "process", "signal", "term"] }
ratatui = "0.29"
serde = { version = "1", features = ["derive"] }
serde_json = "1"
vt100 = "0.15"
