[package]
name = "turboripent"
version = "2.1.0"
edition = "2021"
publish = false

[dependencies]
anyhow = "1"
crossterm = "0.28"
cursive = { version = "0.21", default-features = false, features = ["crossterm-backend"] }
dialoguer = "0.11"
glob = "0.3"
