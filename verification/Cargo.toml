[package]
name = "vfs"
version = "0.2.0"
edition = "2021"
publish = false

[dependencies]
hex = "*"
clap = { version = "*", features = ["derive"] }
