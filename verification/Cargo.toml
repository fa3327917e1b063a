[package]
name = "modloader"
version = "2.0.0"
edition = "2021"
publish = false

[dependencies]
anyhow = "1"
goblin = "*"
rustix = { version = "1", features = ["system", "process"] }
scroll = "*"
