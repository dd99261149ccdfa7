[package]
name = "ipv6_placer"
version = "0.1.0"
edition = "2021"
publish = false

[dependencies]
clap = { version = "*", features = ["derive"] }
num_cpus = "*"
socket2 = { version = "*", features = ["all"] }
image = { version = "*", default-features = false, features = ["png"] }
