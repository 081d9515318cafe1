[package]
name = "calculator"
version = "0.1.0"
edition = "2021"
publish = false

[dependencies]
tokio = { version = "1", features = ["rt-multi-thread", "macros", "net", "io-util"] }
eframe = { version = "0.22", default-features = false, features = ["glow", "default_fonts"] }
env_logger = { version = "0.10", default-features = false }
open = "5"
