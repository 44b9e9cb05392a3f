[package]
name = "unstruc"
version = "0.1.0"
edition = "2021"
publish = false

[dependencies]
cgmath = "*"
clap = "2"
libc = "*"
