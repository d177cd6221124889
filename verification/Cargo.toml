[package]
name = "wave_collapse"
version = "0.1.0"
edition = "2021"
publish = false

[dependencies]
rand = "0.8"
image = "0.23"
glob = "0.3"
pbr = "1"
ggez = "0.6"
