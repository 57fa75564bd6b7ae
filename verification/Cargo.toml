[package]
name = "cocklike"
version = "0.1.0"
edition = "2021"
publish = false

[dependencies]
caith = "*"
rand = "0.8"
strfmt = "*"
sark_grids = "*"
Inflector = "*"
pathfinding = "*"
multimap = "*"
thunderdome = "*"
unicode-segmentation = "1"
serde = { version = "1", features = ["derive"] }
adam_fov_rs = "*"
dyn-clonable = "*"
