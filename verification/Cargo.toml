[package]
name = "trecs"
version = "0.1.0"
edition = "2021"
publish = false

[dependencies]
jmespath = "*"
memmap = "*"
rkv = "*"
serde = { version = "*", features = ["derive"] }
serde_json = "*"
serde_yaml = "*"
structopt = "*"
tempfile = "*"
