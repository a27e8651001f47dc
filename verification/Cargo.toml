[package]
name = "textnav"
version = "0.1.0"
edition = "2021"
publish = false

[dependencies]
crossterm = "*"
dirs = "*"
regex = "*"
tokio = { version = "*", features = ["macros", "rt-multi-thread", "time"] }
