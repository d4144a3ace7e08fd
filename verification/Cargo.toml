[package]
name = "maxwell"
version = "0.1.0"
edition = "2021"
publish = false

[dependencies]
rand = "0.8"
rand_pcg = "0.3"
colored = "2"
chrono = "0.4"
macroquad = "0.4"
