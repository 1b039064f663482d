[package]
name = "seldom_map_nav"
version = "0.1.0"
edition = "2021"
publish = false

[dependencies]
navmesh = "=0.12.1"
