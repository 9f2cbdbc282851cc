[package]
name = "simple_space"
version = "0.1.0"
edition = "2021"
publish = false

[dependencies]
avian2d = { version = "0.2", default-features = false, features = ["2d", "f32", "parry-f32"] }
bevy = { version = "0.15", default-features = false, features = ["bevy_asset", "bevy_color", "bevy_core_pipeline", "bevy_render", "bevy_sprite", "bevy_text", "bevy_ui"] }
bevy_prototype_lyon = "0.13"
bevy_rand = { version = "0.9", default-features = false, features = ["wyrand"] }
bevy_simple_text_input = "0.10"
fastrand = "2"
rand_core = "0.6"
serde = { version = "1", features = ["derive"] }
toml = "0.8"
