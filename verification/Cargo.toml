[package]
name = "opennav"
version = "0.1.0"
edition = "2021"
publish = false

[dependencies]
shlex = "*"
gtk4 = "*"
rusqlite = { version = "*", features = ["bundled"] }
dirs = "*"
