[package]
name = "guixvis"
version = "0.8.0"
edition = "2021"
publish = false

[dependencies]
sha2 = "0.10"
serde = { version = "1", features = ["derive"] }
serde_json = "1"
nucleo-matcher = "0.3"
ratatui = "0.29"
crossterm = "0.28"
axum = "0.8"
tokio = { version = "1", features = ["rt-multi-thread", "macros", "net", "signal", "sync"] }
flate2 = "1"
anyhow = "1"
dirs = "6"
nix = { version = "0.29", features = ["fs", "signal", "process"] }
unicode-width = "0.2"
