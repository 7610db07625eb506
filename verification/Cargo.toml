[package]
name = "revise"
version = "0.1.0"
edition = "2021"
publish = false

[dependencies]
annotate-snippets = { version = "=0.9.2", features = ["color"] }
anyhow = "=1.0.104"
bincode = "=1.3.3"
clap = { version = "=3.2.25", features = ["derive"] }
crossterm = "=0.25.0"
directories = "=4.0.1"
rand = "=0.8.8"
rusqlite = { version = "=0.28.0", features = ["bundled"] }
scopeguard = "=1.2.0"
thiserror = "=1.0.69"
unicode-width = "=0.1.14"

[dev-dependencies]
serde = "=1.0.229"
