[package]
name = "gorilla"
version = "0.1.0"
edition = "2021"
publish = false

[dependencies]
regex = "1"
clap = { version = "4", features = ["derive"] }
colored = "2"
scraper = "0.17"
markup5ever = "0.11"
ureq = "2"
