[package]
name = "mandelbrot"
version = "0.1.0"
edition = "2021"
publish = false

[dependencies]
image = { version = "=0.23.14", default-features = false, features = ["png"] }
indicatif = "=0.15.0"
num-complex = "=0.3.1"
num-traits = "=0.2.19"
rayon = "=1.12.0"
