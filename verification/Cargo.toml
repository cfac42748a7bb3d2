[package]
name = "advent_of_code"
version = "0.1.0"
edition = "2021"
publish = false

[dependencies]
itertools = "=0.15.0"
num = "=0.4.3"
simple-error = "=0.3.3"

[dev-dependencies]
nom = "7.1"
