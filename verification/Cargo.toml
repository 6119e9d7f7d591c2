[package]
name = "brick_mosaic"
version = "0.1.0"
edition = "2021"
publish = false

[dependencies]
boolvec = "*"
kd-tree = "*"
typenum = "1"
image = { version = "0.24", default-features = false, features = ["png"] }
palette = { version = "0.7", default-features = false, features = ["std"] }

[dev-dependencies]
rand = "0.8"
rand_chacha = "0.3"
