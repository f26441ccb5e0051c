[package]
name = "deep_net"
version = "0.1.0"
edition = "2021"
publish = false

[dependencies]
bytemuck = "1"
clap = { version = "4", features = ["derive"] }
flate2 = "1"
rand = "0.8"
rand_chacha = "0.3"
ureq = "2"
