[package]
name = "codetagger"
version = "0.1.0"
edition = "2021"
publish = false

[dependencies]
edit-distance = "*"
clap = { version = "*", features = ["derive"] }
walkdir = "*"
ansi_term = "*"
