[package]
name = "minivm"
version = "0.1.0"
edition = "2021"
publish = false

[dependencies]
thiserror = "1"
clap = { version = "4", features = ["derive"] }
