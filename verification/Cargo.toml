[package]
name = "memscan"
version = "0.1.0"
edition = "2021"
publish = false

[dependencies]
process-memory = "*"
sysinfo = "*"
