[package]
name = "array_vis_bench"
version = "0.1.0"
edition = "2021"
publish = false

[dependencies]
rand = "=0.8.8"
linkme = "0.3"
ctor = "0.2"
