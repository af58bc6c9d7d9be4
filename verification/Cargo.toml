[package]
name = "testos"
version = "0.1.0"
edition = "2021"
publish = false

[dependencies]
arrayvec = { version = "=0.5.2", default-features = false }
log = "=0.4.35"
spin = "=0.9.9"
x86_64 = { version = "=0.15.5", default-features = false, features = ["instructions"] }
multiboot2 = "=0.28.0"
once_cell = "=1.21.4"
