[package]
name = "hope"
version = "0.1.0"
edition = "2021"
publish = false

[dependencies]
num-bigint = "*"
num-integer = "*"
num-traits = "*"
getrandom = "*"
serde = { version = "*", features = ["derive"] }
serde_json = "*"
toml = "*"
