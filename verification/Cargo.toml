[package]
name = "complex_plot"
version = "0.1.0"
edition = "2021"
publish = false

[dependencies]
num = "0.4"
num-complex = "0.4"
num-traits = "0.2"
image = { version = "0.25", default-features = false, features = ["png"] }
