[package]
name = "cimplex"
version = "0.1.0"
edition = "2021"
publish = false

[dependencies]
fnv = "=1.0.7"
float-ord = "=0.3.2"
nalgebra = "=0.24.1"
simplicity = "=0.4.2"
