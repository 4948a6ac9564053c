[package]
name = "discrete_sampling"
version = "0.1.0"
edition = "2021"
publish = false

[dependencies]
exr = "1"
rand = "0.8"
sobol_burley = "*"

[dev-dependencies]
statrs = "0.16"
