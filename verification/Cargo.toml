[package]
name = "builder"
version = "0.1.0"
edition = "2021"
publish = false

[dependencies]
pulldown-cmark = "*"
serde = { version = "1", features = ["derive"] }
syntect = { version = "*", default-features = false, features = ["default-fancy"] }
toml = "*"
