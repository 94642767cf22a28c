[package]
name = "gameplay"
version = "0.1.0"
edition = "2021"
publish = false

[dependencies]
avian3d = { version = "0.5", default-features = false, features = ["3d", "f32", "parry-f32"] }
bevy = { version = "0.18", default-features = false, features = ["std", "bevy_state", "bevy_asset", "bevy_scene", "bevy_pbr", "bevy_ui", "bevy_window", "bevy_core_pipeline", "bevy_light", "bevy_camera", "bevy_post_process"] }
