[package]
name = "location_history"
version = "0.1.0"
edition = "2021"
publish = false

[dependencies]
anyhow = "*"
chrono = { version = "*", features = ["serde"] }
clap = { version = "*", features = ["derive"] }
colored = "*"
env_logger = "*"
geo = "*"
glob-match = "*"
itertools = "*"
log = "*"
prettytable-rs = "*"
serde = "*"
serde_derive = "*"
serde_json = "*"
spinner = "*"
struson = { version = "*", features = ["serde"] }
