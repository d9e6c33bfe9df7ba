[package]
name = "nucleo_join"
version = "0.1.0"
edition = "2021"
publish = false

[dependencies]
nucleo = "0.5"
