[package]
name = "evergreen_relations"
version = "0.1.0"
edition = "2021"
publish = false

[dependencies]
bevy_ecs = "0.17"
