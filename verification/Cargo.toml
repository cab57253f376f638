[package]
name = "instrument_communication"
version = "0.1.0"
edition = "2021"
publish = false

[dependencies]
hostname = "*"
dlopen = "*"
