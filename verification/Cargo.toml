[package]
name = "vector_db"
version = "0.1.0"
edition = "2021"
publish = false

[dependencies]
binary-heap-plus = "*"
parking_lot = "*"
