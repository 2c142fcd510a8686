[package]
name = "parallel_sudoku"
version = "0.1.0"
edition = "2021"
publish = false

[dependencies]
crossbeam = "*"
core_affinity = "*"
rayon = "*"
