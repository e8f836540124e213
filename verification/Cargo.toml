[package]
name = "doom_wad"
version = "0.1.0"
edition = "2021"
publish = false

[dependencies]
anyhow = "1"
bevy = { version = "0.18", default-features = false, features = ["bevy_pbr", "bevy_winit", "bevy_sprite"] }
i_triangle = "0.51"
