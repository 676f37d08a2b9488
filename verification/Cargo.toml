[package]
name = "zengyaku"
version = "0.1.0"
edition = "2021"
publish = false

[dependencies]
anyhow = "1"
bytes = "1"
clap = { version = "3.1", features = ["derive"] }
hex = "0.4"
itertools = "0.10"
memchr = "2.4"
nom = "7"
nom-bufreader = "0.2"
quick-xml = "0.22"
