[package]
name = "billiard_cage"
version = "0.1.0"
edition = "2021"
publish = false

[dependencies]
rand = "*"
bresenham = "*"
tiff = "*"
chrono = "*"
indicatif = "*"
