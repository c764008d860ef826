[package]
name = "gd_image_to_text"
version = "0.1.0"
edition = "2021"
publish = false

[dependencies]
image = "0.24"
base64 = "0.13"
flate2 = "1"
rfd = "0.14"
