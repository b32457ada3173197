[package]
name = "mlibc_demo_os"
version = "0.1.0"
edition = "2021"
publish = false

[dependencies]
fdt = "*"
