[package]
name = "evaldomain"
version = "0.1.0"
edition = "2021"
publish = false

[dependencies]
fff = "*"
groupy = "*"
paired = "*"
log = "0.4"

[dev-dependencies]
rand = "0.7"
rand_core = "0.5"
