[package]
name = "calc"
version = "0.1.0"
edition = "2021"
publish = false

[dependencies]
iced = "0.2"
iced_native = "0.3"
