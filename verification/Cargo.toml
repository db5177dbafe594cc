[package]
name = "sat_micro"
version = "0.1.0"
edition = "2021"
publish = false

[dependencies]
clap = "4"
log = "0.4"
simplelog = "0.12"
rayon = "1"
indicatif = "0.17"
xz2 = "0.1"
