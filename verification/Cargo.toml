[package]
name = "os"
version = "0.1.0"
edition = "2021"

[dependencies]
lazy_static = "1.4.0"
