[package]
name = "tributary-fs"
version = "0.1.0"
edition = "2021"
publish = false

[dependencies]
async-channel = "2"
libc = "0.2"
rustix = { version = "1", features = ["event", "fs"] }
