[package]
name = "snacc_compiler"
version = "0.1.0"
edition = "2021"
publish = false

[dependencies]
sha2 = "0.10"
getrandom = "0.3"
ariadne = "0.5"
