[package]
name = "worldgen"
version = "0.1.0"
edition = "2021"
publish = false

[dependencies]
bevy = { version = "0.9", default-features = false }
bevy_ecs_tilemap = "0.9"
noise = "0.8"
rand = "0.8"
