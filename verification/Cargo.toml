[package]
name = "quixotic"
version = "0.1.0"
edition = "2021"
publish = false

[dependencies]
rand = "=0.10.3"
actix-web = "=4.15.0"
clap = { version = "=4.6.7", features = ["derive"] }
walkdir = "=2.5.0"
html5ever = "=0.39.0"
markup5ever_rcdom = "=0.39.0"
