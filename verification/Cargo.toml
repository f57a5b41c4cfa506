[package]
name = "git_ignore"
version = "0.1.0"
edition = "2021"
publish = false

[dependencies]
anyhow = "*"
attohttpc = "*"
clap = { version = "*", features = ["derive"] }
clap_complete = "*"
colored = "*"
etcetera = "*"
