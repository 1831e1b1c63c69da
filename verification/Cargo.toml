[package]
name = "rs_2048"
version = "0.1.0"
edition = "2021"
publish = false

[dependencies]
fastrand = "2"
console = "0.15"
crossterm = "0.27"
rand = "0.8"
fltk = "1"
