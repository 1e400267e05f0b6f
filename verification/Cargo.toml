[package]
name = "train_game"
version = "0.1.0"
edition = "2021"
publish = false

[dependencies]
bevy = { version = "0.14", default-features = false }
bevy_rapier2d = { version = "0.27", default-features = false, features = ["dim2"] }
clap = { version = "4", features = ["derive"] }
rand = "0.8"
tiled = "0.12"
