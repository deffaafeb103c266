[package]
name = "quill"
version = "0.1.0"
edition = "2021"
publish = false

[dependencies]
bevy_ecs = "0.12"
bevy_app = "0.12"
bevy_hierarchy = "0.12"
