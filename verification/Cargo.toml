[package]
name = "hccr_verified"
version = "0.1.0"
edition = "2021"
publish = false

[dependencies]
bitvec = "1"
either = "1"
fcars = "*"
rayon = "1"
