[package]
name = "tonnetz"
version = "0.1.0"
edition = "2021"
publish = false

[dependencies]
rand = "*"
midly = "*"
hound = "*"
rustysynth = "*"
cpal = "*"
