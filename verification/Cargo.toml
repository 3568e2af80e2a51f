[package]
name = "signin"
version = "0.1.0"
edition = "2021"
publish = false

[dependencies]
chrono = "0.4"
regex = "1"
rust-argon2 = "*"
rand = "0.8"
directories = "*"
cursive = { version = "0.21", default-features = false, features = ["crossterm-backend"] }
reqwest = { version = "0.12", default-features = false, features = ["blocking", "rustls-tls"] }
