[package]
name = "reword"
version = "0.1.0"
edition = "2021"
publish = false

[dependencies]
jiff = "0.2"
unicode-normalization = "0.1"
unicode-width = "0.2"
clap = { version = "4", features = ["derive", "env"] }
clap_complete = { version = "4", features = ["unstable-dynamic"] }
crossterm = "0.29"
fsrs = "6"
serde = { version = "1", features = ["derive"] }
serde_json = "1"
toml = "0.9"
