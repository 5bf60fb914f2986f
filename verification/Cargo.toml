[package]
name = "butterfly"
version = "0.1.0"
edition = "2021"
publish = false

[dependencies]
serde = { version = "*", features = ["derive"] }
serde_json = "*"
actix-web = { version = "*", default-features = false, features = ["rustls-0_23"] }
rustls = "*"
prometheus = "*"
clap = "*"
