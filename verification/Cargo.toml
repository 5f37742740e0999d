[package]
name = "qemu_connector"
version = "0.1.0"
edition = "2021"
publish = false

[dependencies]
libc = "*"
qapi = { version = "*", features = ["qmp"] }
