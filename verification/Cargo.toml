[package]
name = "strex"
version = "0.1.0"
edition = "2021"
publish = false

[dependencies]
aho-corasick = "1"
clap = { version = "4", features = ["derive"] }
hyperscan = "*"
itertools = "*"
rand = "0.9"
regex = "1"
