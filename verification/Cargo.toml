[package]
name = "maze_solver"
version = "0.1.0"
edition = "2021"
publish = false

[dependencies]
pathfinding = "4"
image = "0.24"
clap = "3"
