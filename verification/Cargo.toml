[package]
name = "fastnum"
version = "0.1.0"
edition = "2021"
publish = false

[dependencies]
bnum = "=0.13.0"
arrayvec = "=0.7.8"
num-traits = "=0.2.19"
