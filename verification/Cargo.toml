[package]
name = "nala"
version = "0.1.0"
edition = "2021"
publish = false

[dependencies]
anyhow = "1"
ar = "=0.9.0"
chrono = "0.4"
clap = { version = "4", features = ["derive"] }
crossterm = "0.27"
digest = "0.10"
globset = "=0.4.21"
indexmap = "=2.14.2"
indicatif = "0.17"
nix = { version = "0.29", features = ["fs", "process", "term", "ioctl", "user", "signal"] }
ratatui = "0.26"
regex = "=1.13.1"
reqwest = { version = "=0.12.28", default-features = false, features = ["blocking", "rustls-tls"] }
rust-apt = { version = "0.9", features = ["serde"] }
serde = { version = "1", features = ["derive"] }
serde_json = "1"
sha2 = "=0.10.9"
tar = "=0.4.46"
tokio = { version = "1", features = ["full"] }
toml = "0.8"
xz2 = "=0.1.7"
