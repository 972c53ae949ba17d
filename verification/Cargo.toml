[package]
name = "rapier_cave"
version = "0.1.0"
edition = "2021"
publish = false

[dependencies]
rapier2d = "0.22"
macroquad = "0.4"
