[package]
name = "fasttime"
version = "0.1.0"
edition = "2021"
publish = false

[dev-dependencies]
time = "0.3"
