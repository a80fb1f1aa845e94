[package]
name = "face_prediction"
version = "0.1.0"
edition = "2021"
publish = false

[dependencies]
image = "=0.24.9"
imageproc = "=0.23.1"
ndarray = "=0.15.6"
ort = { version = "=2.0.0-rc.13", default-features = false, features = [
    "std",
    "alternative-backend",
] }
rayon = "=1.12.0"
