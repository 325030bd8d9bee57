[package]
name = "mailprune"
version = "0.1.0"
edition = "2021"
publish = false

[dependencies]
anyhow = "1"
async-imap = { version = "0.10", default-features = false, features = ["runtime-tokio"] }
chrono = "0.4"
crossterm = { version = "0.28", features = ["event-stream"] }
dirs = "5"
futures = "0.3"
keyring = "3"
lettre = { version = "0.11", default-features = false, features = ["builder", "smtp-transport", "tokio1-rustls-tls"] }
mailparse = "0.16"
open = "5"
ratatui = "0.29"
reqwest = { version = "0.12", default-features = false, features = ["rustls-tls"] }
rpassword = "7"
rustls-pki-types = "1"
serde = { version = "1", features = ["derive"] }
serde_json = "1"
tokio = { version = "1", features = ["rt-multi-thread", "macros", "net", "sync", "time"] }
tokio-rustls = { version = "0.26", default-features = false, features = ["ring", "tls12", "logging"] }
toml = "0.8"
webpki-roots = "0.26"
