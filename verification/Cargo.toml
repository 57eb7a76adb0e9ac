[package]
name = "oxideav-ape"
version = "0.0.2"
edition = "2021"
publish = false

[dependencies]
oxideav-core = "*"
