[package]
name = "numpad"
version = "0.1.0"
edition = "2021"
publish = false

[dependencies]
anyhow = "1"
clap = { version = "4", features = ["derive"] }
log = "0.4"
rustyline = "*"
stderrlog = "0.6"
