[package]
name = "codex"
version = "0.1.0"
edition = "2021"
publish = false

[dependencies]
git2 = "*"
chrono = "*"
lcs-diff = "*"
log = "*"
regex = "*"
walkdir = "*"
nvim-rs = { version = "*", features = ["use_tokio"] }
rmpv = "*"
tokio = { version = "*", features = ["full"] }
async-trait = "*"
log4rs = "*"
log-panics = "*"
