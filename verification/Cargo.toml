[package]
name = "tuitui"
version = "0.1.0"
edition = "2021"
publish = false

[dependencies]
rand = "0.7"
chrono = "0.4"
termion = "1"

[dependencies.tui]
version = "0.19"
default-features = false
features = ["termion"]
