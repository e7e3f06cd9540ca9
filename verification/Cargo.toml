[package]
name = "big_space"
version = "0.1.0"
edition = "2021"
publish = false

[dependencies]
bevy_platform = "=0.20.1"
bevy_ecs = "=0.20.1"
bevy_app = "=0.20.1"
bevy_math = "=0.20.1"
bevy_transform = "=0.20.1"
bevy_reflect = "=0.20.1"
bevy_log = "=0.20.1"
bevy_tasks = "=0.20.1"
bevy_camera = { version = "=0.20.1", default-features = false }
bevy_input = { version = "=0.20.1", default-features = false }
bevy_time = { version = "=0.20.1", default-features = false }
bevy_gizmos = { version = "=0.20.1", default-features = false }
bevy_color = { version = "=0.20.1", default-features = false }
