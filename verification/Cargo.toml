[package]
name = "alteraparser"
version = "0.1.0"
edition = "2021"
publish = false

[dependencies]
fancy-regex = "*"
thiserror = "*"
clap = { version = "4", features = ["derive"] }
