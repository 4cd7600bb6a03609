[package]
name = "ledger"
version = "0.1.0"
edition = "2021"
publish = false

[dependencies]
wildmatch = "*"
serde = { version = "*", features = ["derive"] }
serde_json = "*"
clap = { version = "*", features = ["derive"] }
anyhow = "*"
thiserror = "*"
time = { version = "*", features = ["local-offset", "formatting", "parsing", "macros"] }
colored = "*"
terminal_size = "*"
strum = { version = "*", features = ["derive"] }
