[package]
name = "audio_fx"
version = "0.1.0"
edition = "2021"
publish = false

[dependencies]
jack = "*"
rand = "*"
