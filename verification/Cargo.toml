[package]
name = "mosh_whave"
version = "0.1.0"
edition = "2021"
publish = false

[dependencies]
hashbrown = "0.14"
ahash = "0.8"
nanorand = "0.7"
glam = "0.24"
thiserror = "1"
