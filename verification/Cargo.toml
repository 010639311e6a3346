[package]
name = "kr2r"
version = "0.1.0"
edition = "2021"
publish = false

[dependencies]
hyperloglogplus = "*"
clap = { version = "*", features = ["derive"] }
libc = "*"
num_cpus = "*"
rayon = "*"
regex = "*"
walkdir = "*"
