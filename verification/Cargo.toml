[package]
name = "xp"
version = "0.1.0"
edition = "2021"
publish = false

[dependencies]
fxhash = "0.2.1"
rand = "0.8.5"
statrs = "0.17"
