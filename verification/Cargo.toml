[package]
name = "simple_clustering"
version = "0.2.0"
edition = "2021"
publish = false

[dependencies]
clap = { version = "3", features = ["derive"] }
fxhash = "0.2"
image = { version = "0.24", default-features = false, features = ["jpeg", "png"] }
num-traits = "0.2"
palette = "0.6"
