[package]
name = "gapless_audio"
version = "0.1.0"
edition = "2021"
publish = false

[dependencies]
cpal = "0.15"
rubato = "0.16"
symphonia = "0.5"
