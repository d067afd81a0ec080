[package]
name = "tsplib"
version = "0.1.0"
edition = "2021"
publish = false

[dependencies]
nom = "5"
strum = "*"
strum_macros = "*"
noisy_float = "*"
