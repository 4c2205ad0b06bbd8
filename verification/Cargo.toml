[package]
name = "qae"
version = "0.1.0"
edition = "2021"
publish = false

[dependencies]
regex = "1"
grep-regex = "0.1"
grep-searcher = "0.1"
ignore = "0.4"
clap = { version = "4", features = ["derive"] }
clap_complete = "4"
