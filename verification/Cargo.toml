[package]
name = "sudoku_rust"
version = "0.1.0"
edition = "2021"
publish = false

[dependencies]
fastrand = "*"
actix-web = "*"
actix-files = "*"
tera = "*"
lazy_static = "*"
