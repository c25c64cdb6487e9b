[package]
name = "pcron"
version = "0.1.0"
edition = "2021"
publish = false

[dependencies]
rand = "0.9"
rand_distr = "0.5"
tokio = { version = "1", features = ["macros", "rt-multi-thread", "process", "time"] }
clap = { version = "4", features = ["derive", "env"] }
chrono = "0.4"
hostname = "0.4"
users = "0.11"
futures = "0.3"
