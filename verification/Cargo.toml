[package]
name = "twist"
version = "0.1.0"
edition = "2021"
publish = false

[dependencies]
git2 = "*"
clap = { version = "*", features = ["derive"] }
dircpy = "*"
dirs = "*"
subprocess = "*"
log = "*"
simplelog = "*"
anyhow = "*"

[dev-dependencies]
tempfile = "*"
