[package]
name = "easy_alloc"
version = "0.1.0"
edition = "2021"
publish = false

[dependencies]
libc = "0.2"
orengine-utils = "=2.3.0"
