[package]
name = "notefile"
version = "0.1.0"
edition = "2021"
publish = false

[dependencies]
humantime = "*"
chrono = "*"
clap = { version = "*", features = ["derive"] }
tabled = "*"
tempfile = "*"
which = "*"
