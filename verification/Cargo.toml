[package]
name = "structless"
version = "0.1.0"
edition = "2021"
publish = false

[dependencies]
anyhow = "1"
clap = { version = "3", features = ["derive"] }
crossterm = "0.25"
tracing = "0.1"
tracing-subscriber = { version = "0.3", features = ["env-filter"] }
tree-sitter = "0.20"
tree-sitter-json = "0.20"
tree-sitter-rust = "0.20"
tui = "0.19"
unicode-width = "0.1"
