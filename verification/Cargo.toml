[package]
name = "nbody"
version = "0.1.0"
edition = "2021"
publish = false

[dependencies]
hashbrown = "0.14"
nalgebra = "0.32"
parking_lot = "0.12"
rand = "0.7"
rayon = "1"
clap = "2.34"
lazy_static = "1"
sdl2 = "0.35"
mpi = "0.6"
