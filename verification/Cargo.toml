[package]
name = "bernoulli_vs_moivre_laplace"
version = "0.1.0"
edition = "2021"
publish = false

[dependencies]
num-bigint = "*"
num-integer = "*"
