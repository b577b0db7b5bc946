[package]
name = "runperf"
version = "0.3.1"
edition = "2021"
publish = false

[dependencies]
libc = "0.2"
