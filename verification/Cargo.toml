[package]
name = "fibonacci_sequence"
version = "0.1.0"
edition = "2021"
publish = false

[dev-dependencies]
num-bigint = "0.4"
