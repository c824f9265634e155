[package]
name = "sim_core"
version = "0.1.0"
edition = "2021"
publish = false

[dependencies]
hibitset = "=0.6.4"
nphysics2d = "=0.24.0"
ncollide2d = "=0.32.0"
nalgebra = "=0.29.0"
