[package]
name = "onus"
version = "0.1.0"
edition = "2021"
publish = false

[dependencies]
bevy = { version = "=0.19.1", default-features = false, features = ["std", "bevy_asset", "bevy_camera", "bevy_color", "bevy_gizmos", "bevy_image", "bevy_log", "bevy_sprite", "bevy_text", "bevy_ui", "bevy_window", "keyboard", "mouse"] }
ron = "=0.12.3"
serde = { version = "=1.0.229", features = ["derive"] }
