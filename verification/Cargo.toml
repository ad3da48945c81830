[package]
name = "reed_solomon_novelpoly"
version = "0.1.0"
edition = "2021"
publish = false

[dependencies]
itertools = "0.10"
rand = { version = "0.8", features = ["small_rng"] }
static_init = "1"
color-eyre = "0.6"
fs-err = "2"
