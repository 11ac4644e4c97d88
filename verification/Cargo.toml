[package]
name = "clrgc"
version = "0.1.0"
edition = "2021"
publish = false

[dependencies]
bitvec = "1"
bitflags = "2"
log = "0.4"
