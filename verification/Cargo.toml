[package]
name = "avian_core"
version = "0.1.0"
edition = "2021"
publish = false

[dependencies]
approx = "=0.5.1"
bevy_app = "=0.20.1"
bevy_ecs = "=0.20.1"
bevy_math = "=0.20.1"
bevy_platform = "=0.20.1"
bevy_shape = "=0.20.1"
bevy_time = "=0.20.1"
glam_matrix_extras = "=0.4.0"
obvhs = "=0.4.0"
parry2d = "=0.31.1"
parry3d = "=0.31.1"
serde = { version = "=1.0.229", features = ["derive"] }
thread_local = "=1.1.10"
