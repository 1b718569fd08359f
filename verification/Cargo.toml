[package]
name = "cipher_engine"
version = "0.1.0"
edition = "2021"
publish = false

[dependencies]
regex = "1"
cli-clipboard = "*"
cli-log = "*"
color-eyre = "0.6"
crossterm = "0.28"
dialoguer = "*"
inquire = "*"
ratatui = "0.29"
reqwest = { version = "0.12", default-features = false, features = ["blocking", "json", "rustls-tls"] }
serde_json = "1"
tracing = "0.1"
tracing-appender = "0.2"
tracing-subscriber = "0.3"
tui-input = "*"
tui-textarea = "0.7"
