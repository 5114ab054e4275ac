[package]
name = "aphorme"
version = "0.1.0"
edition = "2021"
publish = false

[dependencies]
clap = { version = "4", default-features = false, features = ["derive", "help", "std", "usage"] }
confy = "0.5"
env_logger = { version = "0.10", default-features = false }
freedesktop_entry_parser = "=1.3.0"
fuzzy-matcher = "=0.3.7"
linicon = "=2.3.0"
linicon-theme = "=1.2.0"
log = "0.4"
serde = { version = "1", features = ["derive"] }
serde_json = "1"
single-instance = "=0.3.3"
