[package]
name = "raytracer"
version = "0.1.0"
edition = "2021"
publish = false

[dependencies]
console = "0.15"
image = { version = "0.25", default-features = false, features = ["png", "jpeg"] }
indicatif = "0.17"
rand = "0.9"
rayon = "1"
tobj = "4"
