[package]
name = "worldgen"
version = "0.1.0"
edition = "2021"
publish = false

[dependencies]
cgmath = "*"
fuss = "*"
nalgebra = "*"
num_cpus = "1"
png = "*"
rand = "*"
rand_pcg = "*"
rayon = "1"
