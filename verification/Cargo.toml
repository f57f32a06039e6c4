[package]
name = "penguin_game"
version = "0.1.0"
edition = "2021"
publish = false

[dependencies]
rustc-demangle = "0.1"
thiserror = "2"
macroquad = "0.4"
miniquad = "0.4"
glam = "0.27"
parry2d = "*"
nalgebra = "*"
image = { version = "*", default-features = false, features = ["png"] }
arrayvec = "0.7"
clap = "4"
enumset = "1"
