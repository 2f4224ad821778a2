[package]
name = "kmeans_core"
version = "0.1.0"
edition = "2021"
publish = false

[dependencies]
num = "0.4"
nalgebra = "0.33"
plotters = "0.3"
rand = "0.9"
csv = "1"
