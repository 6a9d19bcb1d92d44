[package]
name = "fetch-sac"
version = "0.3.0"
edition = "2021"
publish = false

[dependencies]
anyhow = "1"
chrono = "0.4"
clap = { version = "4", features = ["derive", "cargo"] }
csv = "1"
log = "0.4"
regex = "1"
reqwest = { version = "*", features = ["blocking"] }
scraper = "*"
serde = { version = "1", features = ["derive"] }
serde_json = "1"
stderrlog = "*"
