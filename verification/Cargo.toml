[package]
name = "rshyeong"
version = "0.1.0"
edition = "2021"
publish = false

[dependencies]
num-rational = "=0.4.2"
num-bigint = "=0.4.8"
num-traits = "=0.2.19"
clap = "=4.6.7"
