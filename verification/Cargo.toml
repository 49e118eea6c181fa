[package]
name = "parse_interval"
version = "0.1.0"
edition = "2021"
publish = false

[dependencies]
chrono = { version = "0.4", default-features = false, features = ["std", "now"] }
regex = "1"
thiserror = "1"
