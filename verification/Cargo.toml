[package]
name = "hunkr"
version = "0.1.0"
edition = "2021"
publish = false

[dependencies]
anyhow = "1"
arboard = { version = "3", default-features = false }
clap = { version = "4", features = ["derive"] }
crossbeam-channel = "0.5"
libc = "0.2"
notify = "8"
ratatui = "=0.29.0"
regex = "=1.13.1"
seahash = "=4.1.0"
serde = { version = "1", features = ["derive"] }
serde_json = "1"
syntect = { version = "=5.3.0", default-features = false, features = ["plist-load"] }
toml = "=0.8.23"
toml_edit = "=0.22.27"
two-face = { version = "=0.4.5", default-features = false, features = ["syntect-fancy"] }
unicode-width = "=0.2.0"
