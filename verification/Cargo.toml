[package]
name = "heated_words"
version = "0.1.0"
edition = "2021"
publish = false

[dependencies]
regex = "*"
url = "*"
percent-encoding = "*"
reqwest = { version = "*", default-features = false, features = ["blocking"] }
config = { version = "*", default-features = false, features = ["toml"] }
clap = "*"
