[package]
name = "sidex_workspace"
version = "0.1.0"
edition = "2021"
publish = false

[dependencies]
dirs = "5"
dunce = "1"
serde = { version = "1", features = ["derive"] }

[dev-dependencies]
tempfile = "3"
