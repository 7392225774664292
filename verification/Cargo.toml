[package]
name = "bozon-parser"
version = "0.1.0"
edition = "2021"
publish = false

[dependencies]
chumsky = "0.8"
salsa = "0.16"

[dev-dependencies]
quickcheck = "1"
