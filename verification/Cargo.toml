[package]
name = "xtables"
version = "0.1.0"
edition = "2021"
publish = false

[dependencies]
clap = { version = "*", features = ["derive"] }
once_cell = "*"
tokio = { version = "*", features = ["rt", "rt-multi-thread", "time", "macros"] }
zmq = "*"
