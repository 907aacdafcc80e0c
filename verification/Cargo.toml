[package]
name = "thokr"
version = "0.1.0"
edition = "2021"
publish = false

[dependencies]
rand = "0.8"
cgisf_lib = "*"
chrono = "0.4"
clap = { version = "3", features = ["derive"] }
crossterm = "0.27"
directories = "4"
ratatui = "0.26"
reqwest = { version = "0.11", default-features = false, features = ["blocking"] }
serde = { version = "1", features = ["derive"] }
serde_json = "1"
strum_macros = "0.24"
tui = { version = "0.19", default-features = false }
unicode-width = "0.1"
webbrowser = "0.8"
