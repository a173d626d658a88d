[package]
name = "motion_illusion"
version = "0.1.0"
edition = "2021"
publish = false

[dependencies]
rand = "0.8"
bytemuck = "1"
anyhow = "1"
minifb = "*"
opencv = "*"
