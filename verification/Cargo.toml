[package]
name = "bibtex_parser"
version = "0.1.0"
edition = "2021"
publish = false

[dependencies]
anyhow = "=1.0.104"
async-std = { version = "=1.13.2", features = ["attributes"] }
sqlx = { version = "=0.8.6", default-features = false, features = ["sqlite", "runtime-async-std"] }

[dev-dependencies]
regex = "=1.13.1"
snailquote = "=0.3.1"
