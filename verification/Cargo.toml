[package]
name = "chessing"
version = "0.1.0"
edition = "2021"
publish = false

[dependencies]
arrayvec = "*"
fancy-regex = "*"
fastrand = "*"
num = "*"
num-traits = "*"
rustc-hash = "*"
