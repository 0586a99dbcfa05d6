[package]
name = "fondo"
version = "0.1.0"
edition = "2021"
publish = false

[dependencies]
rand = "0.5"
argparse = "0.2"
image = { version = "*", default-features = false, features = ["png"] }
