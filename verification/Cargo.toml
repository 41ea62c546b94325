[package]
name = "boxbopper"
version = "0.1.0"
edition = "2021"
publish = false

[dependencies]
rand = "0.7"
rand_chacha = "0.2"
crossterm = "0.25"
tui = { version = "0.19", default-features = false, features = ["crossterm"] }
