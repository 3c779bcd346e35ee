[package]
name = "vec_rac"
version = "0.3.0"
edition = "2021"
publish = false

[dependencies]
getopts = "*"
rayon = "*"
