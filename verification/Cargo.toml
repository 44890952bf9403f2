[package]
name = "tcslog"
version = "0.1.0"
edition = "2021"
publish = false

[dependencies]
thiserror = "*"
clap = { version = "*", features = ["derive"] }
flate2 = "*"
tar = "*"

[dev-dependencies]
tempfile = "*"
