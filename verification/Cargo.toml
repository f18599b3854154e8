[package]
name = "sokoban_solver"
version = "0.1.0"
edition = "2021"
publish = false

[dependencies]
nalgebra = "=0.34.2"
siphasher = "=1.0.4"
soukoban = "=0.1.5"
