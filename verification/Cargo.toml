[package]
name = "st7920"
version = "0.1.0"
edition = "2021"
publish = false

[dependencies]
either = { version = "=1.19.0", default-features = false }
embedded-hal = "=1.0.0"
fugit = "=0.3.9"
log = "0.4"
nb = "1"
