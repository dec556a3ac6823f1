[package]
name = "diaparser"
version = "0.1.0"
edition = "2021"
publish = false

[dependencies]
inline-xml = "=0.3.2"

[dev-dependencies]
nom = "=7.1.3"
