[package]
name = "rizzy"
version = "0.1.0"
edition = "2021"
publish = false

[dependencies]
auto_correct_n_suggest = "*"
chrono = "0.4"
chrono-tz = "*"
clap = { version = "3", features = ["derive"] }
eyre = "0.6"
thiserror = "1"

[dev-dependencies]
regex = "1"
