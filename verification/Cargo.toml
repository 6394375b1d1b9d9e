[package]
name = "grynthar"
version = "0.1.0"
edition = "2021"
publish = false

[dependencies]
pathfinding = "*"
macroquad = "0.4"
miniquad = "*"
noise = "*"
rust-ini = "*"
serde_json = "1"
image = "*"
native-dialog = "*"
