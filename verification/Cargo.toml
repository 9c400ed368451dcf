[package]
name = "adp"
version = "0.1.0"
edition = "2021"
publish = false

[dependencies]
anyhow = "1"
dirs = "*"
fs2 = "0.4"
named-semaphore = "*"
sysinfo = "*"
thiserror = "1"
tracing = "0.1"
tracing-subscriber = "0.3"
