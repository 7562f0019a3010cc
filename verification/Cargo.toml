[package]
name = "parametric_renderer"
version = "0.1.0"
edition = "2021"
publish = false

[dependencies]
sha2 = "=0.10.9"
glam = "=0.29.3"
clap = { version = "=4.6.7", features = ["derive"] }
image = { version = "=0.25.10", default-features = false, features = ["png"] }
obj-rs = "0.7"
miniserde = "=0.1.46"
