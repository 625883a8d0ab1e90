[package]
name = "program_lifecycle"
version = "0.1.0"
edition = "2021"
publish = false

[dependencies]
shell-words = "*"
sysinfo = "*"
ron = "*"
serde = { version = "*", features = ["derive"] }
