[package]
name = "coderlm"
version = "0.1.0"
edition = "2021"
publish = false

[dependencies]
anyhow = "=1.0.104"
chrono = { version = "=0.4.45", features = ["serde"] }
dashmap = "=6.2.1"
ignore = "=0.4.34"
notify = "=8.2.1"
parking_lot = "=0.12.5"
regex = "=1.13.1"
serde = { version = "=1.0.229", features = ["derive"] }
tokio = { version = "=1.54.1", features = ["rt"] }
tracing = "=0.1.44"
tree-sitter = "=0.25.10"
tree-sitter-elixir = "=0.3.5"

[dev-dependencies]
tree-sitter-python = "=0.25.0"
tree-sitter-rust = "=0.24.2"
