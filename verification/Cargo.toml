[package]
name = "repo_insight"
version = "0.1.0"
edition = "2021"
publish = false

[dependencies]
chrono = "0.4"
regex = "1"
clap = { version = "4", features = ["derive"] }
colored = "2"
git2 = { version = "0.18", default-features = false }
indicatif = "0.17"
midly = "0.5"
rodio = { version = "0.17", default-features = false }
tabled = "0.8"
tempfile = "3"
