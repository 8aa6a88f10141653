[package]
name = "drone_route"
version = "0.1.0"
edition = "2021"
publish = false

[dependencies]
pathfinding = "*"
ordered-float = "*"
plotters = "*"
