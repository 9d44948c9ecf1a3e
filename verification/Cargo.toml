[package]
name = "manifold_knn"
version = "0.3.0"
edition = "2021"
publish = false

[dependencies]
robust = "1"
