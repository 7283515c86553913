[package]
name = "chalk_solve"
version = "0.1.0"
edition = "2021"
publish = false

[dependencies]
rustc-hash = "1"
chalk-ir = "*"
