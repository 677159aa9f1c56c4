[package]
name = "git_queue"
version = "0.1.0"
edition = "2021"
publish = false

[dependencies]
git2 = "*"
anyhow = "1"
clap = "2"
exitcode = "1"
human-panic = "1"
phf = { version = "0.11", features = ["macros"] }
prettytable-rs = "*"
tracing = "0.1"
tracing-subscriber = { version = "0.3", features = ["env-filter", "fmt"] }
