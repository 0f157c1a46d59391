[package]
name = "hep_ci"
version = "1.0.0"
edition = "2021"

[dependencies]
chrono = "0.4"
