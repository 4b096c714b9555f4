[package]
name = "motion_space"
version = "0.1.0"
edition = "2021"
publish = false

[dependencies]
chrono = "*"
tokio = { version = "*", features = ["macros", "rt-multi-thread", "sync", "io-std", "io-util"] }
