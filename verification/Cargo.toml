[package]
name = "lwnvulns"
version = "0.1.0"
edition = "2021"
publish = false

[dependencies]
curl = "=0.4.51"
scraper = "=0.29.0"
notmuch-sys = "=4.4.2"

[dev-dependencies]
regex = "1"
