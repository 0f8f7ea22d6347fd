[package]
name = "keyvalue"
version = "0.1.0"
edition = "2021"
publish = false

[dependencies]
redb = "*"
futures = "*"
async-trait = "*"

[dev-dependencies]
tempfile = "*"
