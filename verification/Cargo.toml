[package]
name = "qoi"
version = "0.1.0"
edition = "2021"
publish = false

[dependencies]
bytemuck = { version = "=1.25.2", features = ["min_const_generics"] }
rayon = "=1.12.0"
anyhow = "=1.0.104"
png = "=0.17.16"
image = { version = "=0.24.9", default-features = false, features = ["png"] }
