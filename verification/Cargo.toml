[package]
name = "terrain_sim"
version = "0.1.0"
edition = "2021"
publish = false

[dependencies]
bevy = { version = "=0.17.3", default-features = false, features = ["std", "multi_threaded", "bevy_asset", "bevy_shader", "bevy_render", "bevy_core_pipeline", "bevy_pbr", "bevy_mesh", "bevy_camera", "bevy_image", "bevy_color", "bevy_window", "bevy_state", "bevy_ui", "bevy_ui_render", "bevy_text", "default_font"] }
noisy_bevy = "=0.11.0"
