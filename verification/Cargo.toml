[package]
name = "diff_viewer"
version = "0.1.0"
edition = "2021"
publish = false

[dependencies]
textwrap = "0.16"
clap = { version = "4", features = ["derive"] }
crossterm = "0.28"
git2 = { version = "0.19", default-features = false }
ratatui = "0.29"
tracing = "0.1"
tracing-subscriber = { version = "0.3", features = ["env-filter"] }
