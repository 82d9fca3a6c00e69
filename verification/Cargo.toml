[package]
name = "rcore_os"
version = "0.1.0"
edition = "2021"
publish = false

[dependencies]
bitflags = "1.3"
lazy_static = { version = "1.4", features = ["spin_no_std"] }
log = "0.4"
spin = "0.9"
