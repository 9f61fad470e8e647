[package]
name = "griffin"
version = "0.1.0"
edition = "2021"
publish = false

[dependencies]
spin = "*"
stivale-boot = "*"
