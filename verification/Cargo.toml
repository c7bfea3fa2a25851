[package]
name = "bundled_observers"
version = "0.1.0"
edition = "2021"
publish = false

[dependencies]
bevy_ecs = "*"
