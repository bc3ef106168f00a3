[package]
name = "nova_snark"
version = "0.1.0"
edition = "2021"
publish = false

[dependencies]
merlin = "=3.0.0"
ff = "=0.13.1"
bellperson = { version = "=0.27.0", default-features = false }
