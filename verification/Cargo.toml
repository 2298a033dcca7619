[package]
name = "webtoon_viewer"
version = "0.1.0"
edition = "2021"
publish = false

[dependencies]
clap = { version = "4", features = ["derive"] }
horrorshow = "*"
regex = "1"
url = "2"
urlencoding = "2"
