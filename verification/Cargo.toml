[package]
name = "uf2boot"
version = "0.1.0"
edition = "2021"
publish = false

[dependencies]
rp2040-boot2 = "*"

[dev-dependencies]
uf2_block = "*"
