[package]
name = "cs252chkr"
version = "0.1.0"
edition = "2021"
publish = false

[dependencies]
anyhow = "1"
chrono = "0.4"
chrono-humanize = "0.2"
clap = { version = "4", features = ["derive"] }
color-print = "0.3"
git2 = { version = "0.19", default-features = false }
thiserror = "1"
