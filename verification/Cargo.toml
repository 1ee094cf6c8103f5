[package]
name = "log_retention"
version = "0.1.0"
edition = "2021"
publish = false

[dependencies]
anyhow = "1"
chrono = "0.4"
directories = "*"
fern = "*"
log = "0.4"
