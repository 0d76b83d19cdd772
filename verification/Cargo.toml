[package]
name = "isa_interpreter"
version = "0.1.0"
edition = "2021"
publish = false

[dependencies]
clap = { version = "4", features = ["cargo"] }
dot-writer = "0.1"
rand = "0.8"
