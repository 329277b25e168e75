[package]
name = "snaprs"
version = "0.1.0"
edition = "2021"
publish = false

[dependencies]
chrono = "0.4"
clap = { version = "3", features = ["derive"] }
crossbeam = "0.8"
lockfree-object-pool = "0.1"
num = "0.4"
