[package]
name = "benchcmp"
version = "0.1.0"
edition = "2021"
publish = false

[dependencies]
regex = "*"
docopt = "*"
serde = { version = "*", features = ["derive"] }
prettytable-rs = "*"
