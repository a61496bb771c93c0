[package]
name = "wave_collapse"
version = "0.1.0"
edition = "2021"
publish = false

[dependencies]
image = { version = "0.23", default-features = false, features = ["png"] }
num = "0.2"
rand = "0.7"
