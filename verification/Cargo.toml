[package]
name = "fri_security"
version = "0.1.0"
edition = "2021"
publish = false

[dependencies]
libm = "0.2"
num-bigint = "*"
p3-baby-bear = "0.7"
p3-challenger = "0.7"
p3-commit = "0.7"
p3-dft = "0.7"
p3-field = "0.7"
p3-matrix = "0.7"
rand = "*"
spin = "*"
tracing = "0.1"
